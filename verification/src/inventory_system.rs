//! Item-effect phases for carrying: collection moves an item from the
//! ground into a backpack, dropping puts it back on the ground at the
//! dropper's feet, and removal takes an equipped item off into the
//! holder's backpack. Each phase drains its own intent storage. Use
//! resolution (targeting and item capabilities) lives beside them.
use vstd::prelude::*;
use vstd::pervasive::VecAdditionalExecFns;
use crate::components::{lemma_log_push, log_of, log_view, CombatStats, EquipSlot, Equipped, LogEntry, LogEvent, Pt, UseIntent};
use crate::map::SpatialMap;
use crate::world::World;

verus! {

/// Pickup of item `i` by holder `h` goes through: the holder is alive and
/// asks for it, and the item is not equipped on anyone (an equipped item
/// cannot also sit in a backpack).
pub open spec fn pickup_applies(w: World, h: int, i: int) -> bool {
    &&& w.alive@[h]
    &&& w.wants_pickup@[h] is Some
    &&& w.wants_pickup@[h]->Some_0.item == i
    &&& w.equipped@[i] is None
}

/// The holder whose pickup of item `i` lands last among holders with id
/// below `k` (later holders overwrite earlier ones).
pub open spec fn last_picker(w: World, i: int, k: int) -> Option<int>
    decreases k,
{
    if k <= 0 {
        None
    } else if pickup_applies(w, k - 1, i) {
        Some(k - 1)
    } else {
        last_picker(w, i, k - 1)
    }
}

/// What collection logs, over holders with id below `k`: a pickup notice
/// when the player collects a named item, a dropped-intent notice when
/// the pickup cannot go through, in holder order.
pub open spec fn pickup_log(w: World, k: int) -> Seq<LogEvent>
    decreases k,
{
    if k <= 0 {
        Seq::empty()
    } else {
        let s = pickup_log(w, k - 1);
        let h = k - 1;
        if w.alive@[h] && w.wants_pickup@[h] is Some {
            let i = w.wants_pickup@[h]->Some_0.item as int;
            if pickup_applies(w, h, i) {
                if w.wants_pickup@[h]->Some_0.collected_by == w.player_id && w.name@[i] is Some {
                    s.push(LogEvent::PickedUp { name: w.name@[i]->Some_0@ })
                } else {
                    s
                }
            } else {
                s.push(LogEvent::SkippedIntent { who: h as usize })
            }
        } else {
            s
        }
    }
}

/// What collection does: every picked-up item loses its position and sits
/// in the backpack of whoever its last pickup named; the log records each
/// of the player's pickups and each dropped intent; pickup intents are
/// drained; nothing else of the world changes.
pub open spec fn pickup_rel(a: World, b: World) -> bool {
    &&& forall|i: int|
        0 <= i < a.n() ==> #[trigger] b.position@[i] == (if last_picker(a, i, a.n()) is Some {
            None::<Pt>
        } else {
            a.position@[i]
        })
    &&& forall|i: int|
        0 <= i < a.n() ==> #[trigger] b.in_backpack@[i] == (match last_picker(a, i, a.n()) {
            Some(h) => Some(a.wants_pickup@[h]->Some_0.collected_by),
            None => a.in_backpack@[i],
        })
    &&& forall|h: int| 0 <= h < a.n() ==> #[trigger] b.wants_pickup@[h] is None
    &&& b.position@.len() == a.position@.len()
    &&& b.in_backpack@.len() == a.in_backpack@.len()
    &&& b.wants_pickup@.len() == a.wants_pickup@.len()
    &&& log_of(b.log@) == log_of(a.log@) + pickup_log(a, a.n())
    &&& b == (World {
        position: b.position,
        in_backpack: b.in_backpack,
        wants_pickup: b.wants_pickup,
        log: b.log,
        ..a
    })
}

pub struct ItemCollectionSystem {}

impl ItemCollectionSystem {
    /// Move every requested item off the ground into its collector's
    /// backpack, logging the player's own pickups, then drain the intents.
    /// A pickup of an item that is currently equipped is dropped with a
    /// diagnostic instead of leaving the item in two places at once.
    pub fn run(&mut self, w: &mut World)
        requires
            old(w).wf(),
        ensures
            final(w).wf(),
            pickup_rel(*old(w), *final(w)),
    {
        let n = w.alive.len();
        let mut h: usize = 0;
        while h < n
            invariant
                h <= n,
                n == w.n(),
                w.wf(),
                *w == (World {
                    position: w.position,
                    in_backpack: w.in_backpack,
                    log: w.log,
                    ..*old(w)
                }),
                log_of(w.log@) == log_of(old(w).log@) + pickup_log(*old(w), h as int),
                forall|i: int|
                    0 <= i < n ==> #[trigger] w.position@[i] == (if last_picker(
                        *old(w),
                        i,
                        h as int,
                    ) is Some {
                        None::<Pt>
                    } else {
                        old(w).position@[i]
                    }),
                forall|i: int|
                    0 <= i < n ==> #[trigger] w.in_backpack@[i] == (match last_picker(
                        *old(w),
                        i,
                        h as int,
                    ) {
                        Some(hh) => Some(old(w).wants_pickup@[hh]->Some_0.collected_by),
                        None => old(w).in_backpack@[i],
                    }),
            decreases n - h,
        {
            let ghost pre = *w;
            if w.alive[h] {
                if let Some(pi) = w.wants_pickup[h] {
                    proof {
                        assert(w.entity_wf(h as int));
                    }
                    if w.equipped[pi.item].is_none() {
                        w.position.set(pi.item, None);
                        w.in_backpack.set(pi.item, Some(pi.collected_by));
                        let ghost pre_log = w.log@;
                        let mut named: Option<LogEntry> = None;
                        if pi.collected_by == w.player_id {
                            match &w.name[pi.item] {
                                Some(nm) => {
                                    named = Some(LogEntry::PickedUp { name: nm.clone() });
                                },
                                None => {},
                            }
                        }
                        match named {
                            Some(entry) => {
                                w.log.push(entry);
                                proof {
                                    lemma_log_push(pre_log, entry);
                                    assert(log_of(old(w).log@) + pickup_log(*old(w), h + 1) =~= (
                                    log_of(old(w).log@) + pickup_log(*old(w), h as int)).push(
                                        LogEvent::PickedUp {
                                            name: old(w).name@[pi.item as int]->Some_0@,
                                        },
                                    ));
                                }
                            },
                            None => {
                                proof {
                                    assert(pickup_log(*old(w), h + 1) == pickup_log(
                                        *old(w),
                                        h as int,
                                    ));
                                }
                            },
                        }
                        proof {
                            assert(pickup_applies(*old(w), h as int, pi.item as int));
                            assert forall|e2: int| 0 <= e2 < w.n() implies w.entity_wf(e2) by {
                                assert(pre.entity_wf(e2));
                            }
                        }
                    } else {
                        let ghost pre_log = w.log@;
                        let entry = LogEntry::SkippedIntent { who: h };
                        w.log.push(entry);
                        proof {
                            assert(!pickup_applies(*old(w), h as int, pi.item as int));
                            assert forall|e2: int| 0 <= e2 < w.n() implies w.entity_wf(e2) by {
                                assert(pre.entity_wf(e2));
                            }
                            lemma_log_push(pre_log, entry);
                            assert(log_of(old(w).log@) + pickup_log(*old(w), h + 1) =~= (log_of(
                                old(w).log@,
                            ) + pickup_log(*old(w), h as int)).push(
                                LogEvent::SkippedIntent { who: h },
                            ));
                        }
                    }
                    proof {
                        assert forall|i: int| 0 <= i < n implies #[trigger] w.position@[i] == (
                        if last_picker(*old(w), i, h + 1) is Some {
                            None::<Pt>
                        } else {
                            old(w).position@[i]
                        }) && w.in_backpack@[i] == (match last_picker(*old(w), i, h + 1) {
                            Some(hh) => Some(old(w).wants_pickup@[hh]->Some_0.collected_by),
                            None => old(w).in_backpack@[i],
                        }) by {
                            if i != pi.item as int {
                                assert(last_picker(*old(w), i, h + 1) == last_picker(
                                    *old(w),
                                    i,
                                    h as int,
                                ));
                            }
                        }
                    }
                } else {
                    proof {
                        assert forall|i: int| 0 <= i < n implies last_picker(*old(w), i, h + 1)
                            == last_picker(*old(w), i, h as int) by {}
                        assert(pickup_log(*old(w), h + 1) == pickup_log(*old(w), h as int));
                    }
                }
            } else {
                proof {
                    assert forall|i: int| 0 <= i < n implies last_picker(*old(w), i, h + 1)
                        == last_picker(*old(w), i, h as int) by {}
                    assert(pickup_log(*old(w), h + 1) == pickup_log(*old(w), h as int));
                }
            }
            h += 1;
        }
        let mut e: usize = 0;
        while e < n
            invariant
                e <= n,
                n == w.n(),
                w.wf(),
                *w == (World {
                    position: w.position,
                    in_backpack: w.in_backpack,
                    wants_pickup: w.wants_pickup,
                    log: w.log,
                    ..*old(w)
                }),
                log_of(w.log@) == log_of(old(w).log@) + pickup_log(*old(w), n as int),
                forall|i: int|
                    0 <= i < n ==> #[trigger] w.position@[i] == (if last_picker(
                        *old(w),
                        i,
                        n as int,
                    ) is Some {
                        None::<Pt>
                    } else {
                        old(w).position@[i]
                    }),
                forall|i: int|
                    0 <= i < n ==> #[trigger] w.in_backpack@[i] == (match last_picker(
                        *old(w),
                        i,
                        n as int,
                    ) {
                        Some(hh) => Some(old(w).wants_pickup@[hh]->Some_0.collected_by),
                        None => old(w).in_backpack@[i],
                    }),
                forall|e2: int| 0 <= e2 < e ==> #[trigger] w.wants_pickup@[e2] is None,
            decreases n - e,
        {
            let ghost pre = *w;
            w.wants_pickup.set(e, None);
            proof {
                assert forall|e2: int| 0 <= e2 < w.n() implies w.entity_wf(e2) by {
                    assert(pre.entity_wf(e2));
                }
            }
            e += 1;
        }
    }
}

/// Dropper `d` is alive, asks to drop item `i`, stands somewhere, and the
/// item is not equipped on anyone. The dropper's position is read from the
/// evolving state: an earlier drop this tick may itself have repositioned
/// entities.
pub open spec fn drop_applies(w: World, k: int, d: int) -> bool
    decreases k, 1int,
{
    &&& w.alive@[d]
    &&& w.wants_drop@[d] is Some
    &&& w.alive@[w.wants_drop@[d]->Some_0 as int]
    &&& drop_pos(w, k, d) is Some
    &&& w.equipped@[w.wants_drop@[d]->Some_0 as int] is None
}

/// The position of entity `i` after the first `k` droppers have acted.
pub open spec fn drop_pos(w: World, k: int, i: int) -> Option<Pt>
    decreases k, 0int,
{
    if k <= 0 {
        w.position@[i]
    } else {
        let d = k - 1;
        if drop_applies(w, k - 1, d) && w.wants_drop@[d]->Some_0 == i {
            drop_pos(w, k - 1, d)
        } else {
            drop_pos(w, k - 1, i)
        }
    }
}

/// The backpack slot of entity `i` after the first `k` droppers have
/// acted.
pub open spec fn drop_bp(w: World, k: int, i: int) -> Option<usize>
    decreases k,
{
    if k <= 0 {
        w.in_backpack@[i]
    } else {
        let d = k - 1;
        if drop_applies(w, k - 1, d) && w.wants_drop@[d]->Some_0 == i {
            None
        } else {
            drop_bp(w, k - 1, i)
        }
    }
}

/// What dropping logs, over droppers with id below `k`: a drop notice
/// when the player drops a named item, a dropped-intent notice when the
/// drop cannot go through, in dropper order.
pub open spec fn drop_log(w: World, k: int) -> Seq<LogEvent>
    decreases k,
{
    if k <= 0 {
        Seq::empty()
    } else {
        let s = drop_log(w, k - 1);
        let d = k - 1;
        if w.alive@[d] && w.wants_drop@[d] is Some {
            let i = w.wants_drop@[d]->Some_0 as int;
            if drop_applies(w, d, d) {
                if d == w.player_id && w.name@[i] is Some {
                    s.push(LogEvent::Dropped { name: w.name@[i]->Some_0@ })
                } else {
                    s
                }
            } else {
                s.push(LogEvent::SkippedIntent { who: d as usize })
            }
        } else {
            s
        }
    }
}

/// What dropping does: each dropped item leaves its holder's backpack and
/// lands on the dropper's tile; the log records each of the player's
/// drops and each dropped intent; drop intents are drained; nothing else
/// of the world changes.
pub open spec fn drop_rel(a: World, b: World) -> bool {
    &&& forall|i: int| 0 <= i < a.n() ==> #[trigger] b.position@[i] == drop_pos(a, a.n(), i)
    &&& forall|i: int| 0 <= i < a.n() ==> #[trigger] b.in_backpack@[i] == drop_bp(a, a.n(), i)
    &&& forall|d: int| 0 <= d < a.n() ==> #[trigger] b.wants_drop@[d] is None
    &&& b.position@.len() == a.position@.len()
    &&& b.in_backpack@.len() == a.in_backpack@.len()
    &&& b.wants_drop@.len() == a.wants_drop@.len()
    &&& log_of(b.log@) == log_of(a.log@) + drop_log(a, a.n())
    &&& b == (World {
        position: b.position,
        in_backpack: b.in_backpack,
        wants_drop: b.wants_drop,
        log: b.log,
        ..a
    })
}

pub struct ItemDropSystem {}

impl ItemDropSystem {
    /// Put every dropped item on the ground at its dropper's position,
    /// logging the player's own drops, then drain the intents. An intent
    /// whose dropper has no position, or whose item is equipped, is
    /// dropped with a diagnostic.
    pub fn run(&mut self, w: &mut World)
        requires
            old(w).wf(),
        ensures
            final(w).wf(),
            drop_rel(*old(w), *final(w)),
    {
        let n = w.alive.len();
        let mut d: usize = 0;
        while d < n
            invariant
                d <= n,
                n == w.n(),
                w.wf(),
                *w == (World {
                    position: w.position,
                    in_backpack: w.in_backpack,
                    log: w.log,
                    ..*old(w)
                }),
                log_of(w.log@) == log_of(old(w).log@) + drop_log(*old(w), d as int),
                forall|i: int|
                    0 <= i < n ==> #[trigger] w.position@[i] == drop_pos(*old(w), d as int, i),
                forall|i: int|
                    0 <= i < n ==> #[trigger] w.in_backpack@[i] == drop_bp(*old(w), d as int, i),
            decreases n - d,
        {
            let ghost pre = *w;
            if w.alive[d] {
                if let Some(item) = w.wants_drop[d] {
                    proof {
                        assert(w.entity_wf(d as int));
                    }
                    let dropper_pos = w.position[d];
                    if w.alive[item] && dropper_pos.is_some() && w.equipped[item].is_none() {
                        let p = dropper_pos.unwrap();
                        w.position.set(item, Some(p));
                        w.in_backpack.set(item, None);
                        let ghost pre_log = w.log@;
                        let mut named: Option<LogEntry> = None;
                        if d == w.player_id {
                            match &w.name[item] {
                                Some(nm) => {
                                    named = Some(LogEntry::Dropped { name: nm.clone() });
                                },
                                None => {},
                            }
                        }
                        match named {
                            Some(entry) => {
                                w.log.push(entry);
                                proof {
                                    assert(drop_applies(*old(w), d as int, d as int));
                                    lemma_log_push(pre_log, entry);
                                    assert(log_of(old(w).log@) + drop_log(*old(w), d + 1) =~= (
                                    log_of(old(w).log@) + drop_log(*old(w), d as int)).push(
                                        LogEvent::Dropped {
                                            name: old(w).name@[item as int]->Some_0@,
                                        },
                                    ));
                                }
                            },
                            None => {
                                proof {
                                    assert(drop_applies(*old(w), d as int, d as int));
                                    assert(drop_log(*old(w), d + 1) == drop_log(
                                        *old(w),
                                        d as int,
                                    ));
                                }
                            },
                        }
                        proof {
                            assert(pre.entity_wf(d as int));
                            assert(pre.map.pt_in_bounds(p));
                            assert forall|e2: int| 0 <= e2 < w.n() implies w.entity_wf(e2) by {
                                assert(pre.entity_wf(e2));
                            }
                        }
                    } else {
                        let ghost pre_log = w.log@;
                        let entry = LogEntry::SkippedIntent { who: d };
                        w.log.push(entry);
                        proof {
                            assert(!drop_applies(*old(w), d as int, d as int));
                            assert forall|e2: int| 0 <= e2 < w.n() implies w.entity_wf(e2) by {
                                assert(pre.entity_wf(e2));
                            }
                            lemma_log_push(pre_log, entry);
                            assert(log_of(old(w).log@) + drop_log(*old(w), d + 1) =~= (log_of(
                                old(w).log@,
                            ) + drop_log(*old(w), d as int)).push(
                                LogEvent::SkippedIntent { who: d },
                            ));
                        }
                    }
                    proof {
                        assert forall|i: int| 0 <= i < n implies #[trigger] w.position@[i]
                            == drop_pos(*old(w), d + 1, i) && w.in_backpack@[i] == drop_bp(
                            *old(w),
                            d + 1,
                            i,
                        ) by {}
                    }
                } else {
                    proof {
                        assert(drop_log(*old(w), d + 1) == drop_log(*old(w), d as int));
                        assert forall|i: int| 0 <= i < n implies #[trigger] w.position@[i]
                            == drop_pos(*old(w), d + 1, i) && w.in_backpack@[i] == drop_bp(
                            *old(w),
                            d + 1,
                            i,
                        ) by {}
                    }
                }
            } else {
                proof {
                    assert(drop_log(*old(w), d + 1) == drop_log(*old(w), d as int));
                    assert forall|i: int| 0 <= i < n implies #[trigger] w.position@[i]
                        == drop_pos(*old(w), d + 1, i) && w.in_backpack@[i] == drop_bp(
                        *old(w),
                        d + 1,
                        i,
                    ) by {}
                }
            }
            d += 1;
        }
        let mut e: usize = 0;
        while e < n
            invariant
                e <= n,
                n == w.n(),
                w.wf(),
                *w == (World {
                    position: w.position,
                    in_backpack: w.in_backpack,
                    wants_drop: w.wants_drop,
                    log: w.log,
                    ..*old(w)
                }),
                log_of(w.log@) == log_of(old(w).log@) + drop_log(*old(w), n as int),
                forall|i: int|
                    0 <= i < n ==> #[trigger] w.position@[i] == drop_pos(*old(w), n as int, i),
                forall|i: int|
                    0 <= i < n ==> #[trigger] w.in_backpack@[i] == drop_bp(*old(w), n as int, i),
                forall|e2: int| 0 <= e2 < e ==> #[trigger] w.wants_drop@[e2] is None,
            decreases n - e,
        {
            let ghost pre = *w;
            w.wants_drop.set(e, None);
            proof {
                assert forall|e2: int| 0 <= e2 < w.n() implies w.entity_wf(e2) by {
                    assert(pre.entity_wf(e2));
                }
            }
            e += 1;
        }
    }
}

/// Removal of item `i` by holder `h` goes through: the holder is alive and
/// asks for it, and the item is not lying on the ground.
pub open spec fn remove_applies(w: World, h: int, i: int) -> bool {
    &&& w.alive@[h]
    &&& w.wants_remove@[h] is Some
    &&& w.wants_remove@[h]->Some_0 == i
    &&& w.position@[i] is None
}

/// The holder whose removal of item `i` lands last among holders with id
/// below `k`.
pub open spec fn last_remover(w: World, i: int, k: int) -> Option<int>
    decreases k,
{
    if k <= 0 {
        None
    } else if remove_applies(w, k - 1, i) {
        Some(k - 1)
    } else {
        last_remover(w, i, k - 1)
    }
}

/// What removal logs, over holders with id below `k`: a dropped-intent
/// notice per removal that cannot go through, in holder order.
pub open spec fn remove_log(w: World, k: int) -> Seq<LogEvent>
    decreases k,
{
    if k <= 0 {
        Seq::empty()
    } else {
        let s = remove_log(w, k - 1);
        let h = k - 1;
        if w.alive@[h] && w.wants_remove@[h] is Some && !remove_applies(
            w,
            h,
            w.wants_remove@[h]->Some_0 as int,
        ) {
            s.push(LogEvent::SkippedIntent { who: h as usize })
        } else {
            s
        }
    }
}

/// What removal does: each removed item stops being equipped and sits in
/// its holder's backpack; the log records each dropped intent; removal
/// intents are drained; nothing else of the world changes.
pub open spec fn remove_rel(a: World, b: World) -> bool {
    &&& forall|i: int|
        0 <= i < a.n() ==> #[trigger] b.equipped@[i] == (if last_remover(a, i, a.n()) is Some {
            None::<crate::components::Equipped>
        } else {
            a.equipped@[i]
        })
    &&& forall|i: int|
        0 <= i < a.n() ==> #[trigger] b.in_backpack@[i] == (match last_remover(a, i, a.n()) {
            Some(h) => Some(h as usize),
            None => a.in_backpack@[i],
        })
    &&& forall|h: int| 0 <= h < a.n() ==> #[trigger] b.wants_remove@[h] is None
    &&& b.equipped@.len() == a.equipped@.len()
    &&& b.in_backpack@.len() == a.in_backpack@.len()
    &&& b.wants_remove@.len() == a.wants_remove@.len()
    &&& log_of(b.log@) == log_of(a.log@) + remove_log(a, a.n())
    &&& b == (World {
        equipped: b.equipped,
        in_backpack: b.in_backpack,
        wants_remove: b.wants_remove,
        log: b.log,
        ..a
    })
}

pub struct ItemRemoveSystem {}

impl ItemRemoveSystem {
    /// Unequip every removed item into its holder's backpack, then drain
    /// the intents.
    pub fn run(&mut self, w: &mut World)
        requires
            old(w).wf(),
        ensures
            final(w).wf(),
            remove_rel(*old(w), *final(w)),
    {
        let n = w.alive.len();
        let mut h: usize = 0;
        while h < n
            invariant
                h <= n,
                n == w.n(),
                w.wf(),
                *w == (World {
                    equipped: w.equipped,
                    in_backpack: w.in_backpack,
                    log: w.log,
                    ..*old(w)
                }),
                log_of(w.log@) == log_of(old(w).log@) + remove_log(*old(w), h as int),
                forall|i: int|
                    0 <= i < n ==> #[trigger] w.equipped@[i] == (if last_remover(
                        *old(w),
                        i,
                        h as int,
                    ) is Some {
                        None::<crate::components::Equipped>
                    } else {
                        old(w).equipped@[i]
                    }),
                forall|i: int|
                    0 <= i < n ==> #[trigger] w.in_backpack@[i] == (match last_remover(
                        *old(w),
                        i,
                        h as int,
                    ) {
                        Some(hh) => Some(hh as usize),
                        None => old(w).in_backpack@[i],
                    }),
            decreases n - h,
        {
            let ghost pre = *w;
            if w.alive[h] {
                if let Some(item) = w.wants_remove[h] {
                    proof {
                        assert(w.entity_wf(h as int));
                    }
                    if w.position[item].is_none() {
                        w.equipped.set(item, None);
                        w.in_backpack.set(item, Some(h));
                        proof {
                            assert(remove_applies(*old(w), h as int, item as int));
                            assert(remove_log(*old(w), h + 1) == remove_log(*old(w), h as int));
                            assert forall|e2: int| 0 <= e2 < w.n() implies w.entity_wf(e2) by {
                                assert(pre.entity_wf(e2));
                            }
                        }
                    } else {
                        let ghost pre_log = w.log@;
                        let entry = LogEntry::SkippedIntent { who: h };
                        w.log.push(entry);
                        proof {
                            assert(!remove_applies(*old(w), h as int, item as int));
                            assert forall|e2: int| 0 <= e2 < w.n() implies w.entity_wf(e2) by {
                                assert(pre.entity_wf(e2));
                            }
                            lemma_log_push(pre_log, entry);
                            assert(log_of(old(w).log@) + remove_log(*old(w), h + 1) =~= (log_of(
                                old(w).log@,
                            ) + remove_log(*old(w), h as int)).push(
                                LogEvent::SkippedIntent { who: h },
                            ));
                        }
                    }
                    proof {
                        assert forall|i: int| 0 <= i < n implies #[trigger] w.equipped@[i] == (
                        if last_remover(*old(w), i, h + 1) is Some {
                            None::<crate::components::Equipped>
                        } else {
                            old(w).equipped@[i]
                        }) && w.in_backpack@[i] == (match last_remover(*old(w), i, h + 1) {
                            Some(hh) => Some(hh as usize),
                            None => old(w).in_backpack@[i],
                        }) by {
                            if i != item as int {
                                assert(last_remover(*old(w), i, h + 1) == last_remover(
                                    *old(w),
                                    i,
                                    h as int,
                                ));
                            }
                        }
                    }
                } else {
                    proof {
                        assert(remove_log(*old(w), h + 1) == remove_log(*old(w), h as int));
                    }
                }
            } else {
                proof {
                    assert(remove_log(*old(w), h + 1) == remove_log(*old(w), h as int));
                }
            }
            h += 1;
        }
        let mut e: usize = 0;
        while e < n
            invariant
                e <= n,
                n == w.n(),
                w.wf(),
                *w == (World {
                    equipped: w.equipped,
                    in_backpack: w.in_backpack,
                    wants_remove: w.wants_remove,
                    log: w.log,
                    ..*old(w)
                }),
                log_of(w.log@) == log_of(old(w).log@) + remove_log(*old(w), n as int),
                forall|i: int|
                    0 <= i < n ==> #[trigger] w.equipped@[i] == (if last_remover(
                        *old(w),
                        i,
                        n as int,
                    ) is Some {
                        None::<crate::components::Equipped>
                    } else {
                        old(w).equipped@[i]
                    }),
                forall|i: int|
                    0 <= i < n ==> #[trigger] w.in_backpack@[i] == (match last_remover(
                        *old(w),
                        i,
                        n as int,
                    ) {
                        Some(hh) => Some(hh as usize),
                        None => old(w).in_backpack@[i],
                    }),
                forall|e2: int| 0 <= e2 < e ==> #[trigger] w.wants_remove@[e2] is None,
            decreases n - e,
        {
            let ghost pre = *w;
            w.wants_remove.set(e, None);
            proof {
                assert forall|e2: int| 0 <= e2 < w.n() implies w.entity_wf(e2) by {
                    assert(pre.entity_wf(e2));
                }
            }
            e += 1;
        }
    }
}


/// The part of the world an item use reads and rewrites: component views
/// threaded through the users in id order, since one use's effects are
/// visible to the next (a later equip sees an earlier one's swap).
pub struct UseState {
    pub stats: Seq<Option<CombatStats>>,
    pub suffer: Seq<Seq<i64>>,
    pub equipped: Seq<Option<Equipped>>,
    pub backpack: Seq<Option<usize>>,
    pub position: Seq<Option<Pt>>,
    pub confused: Seq<Option<i32>>,
    pub tp_from: Seq<Option<usize>>,
    pub deletes: Seq<usize>,
}

pub open spec fn use_state_of(w: World) -> UseState {
    UseState {
        stats: w.combat_stats@,
        suffer: Seq::new(w.suffer_damage@.len(), |i: int| w.suffer_damage@[i]@),
        equipped: w.equipped@,
        backpack: w.in_backpack@,
        position: w.position@,
        confused: w.confused@,
        tp_from: w.teleport_from@,
        deletes: w.pending_deletes@,
    }
}

/// The occupants of the blast tiles among the first `j` entries of a
/// field of view, clipped to the map's interior, in tile order.
pub open spec fn blast_targets(map: SpatialMap, fseq: Seq<Pt>, j: int) -> Seq<usize>
    decreases j,
{
    if j <= 0 {
        Seq::empty()
    } else {
        let p = fseq[j - 1];
        if 0 < p.x && p.x < map.width - 1 && 0 < p.y && p.y < map.height - 1 {
            blast_targets(map, fseq, j - 1) + map.tile_content@[map.idx_of(
                p.x as int,
                p.y as int,
            )]@
        } else {
            blast_targets(map, fseq, j - 1)
        }
    }
}

/// The entities an item use affects. No target point means the user
/// itself (the using player); a target point without area of effect means
/// the occupants of that tile; a target point with area of effect means
/// the occupants of every blast tile around it.
pub open spec fn use_targets(
    map: SpatialMap,
    intent: UseIntent,
    aoe: Option<i32>,
    player_id: usize,
) -> Seq<usize> {
    match intent.target {
        None => seq![player_id],
        Some(pt) => {
            if map.in_bounds_spec(pt.x as int, pt.y as int) {
                match aoe {
                    None => map.tile_content@[map.idx_of(pt.x as int, pt.y as int)]@,
                    Some(radius) => {
                        let fseq = crate::fov::fov_full(map, pt.x as int, pt.y as int, radius as int);
                        blast_targets(map, fseq, fseq.len() as int)
                    },
                }
            } else {
                Seq::empty()
            }
        },
    }
}

/// The target list of user `u` in world `w`, when `u` holds a use intent.
pub open spec fn targets_of(w: World, u: int) -> Seq<usize> {
    use_targets(
        w.map,
        w.wants_use@[u]->Some_0,
        w.area_of_effect@[w.wants_use@[u]->Some_0.item as int],
        w.player_id,
    )
}

/// Equip effect: swap whatever the first target wears in the item's slot
/// back into its backpack, then equip the item on it. The item leaves
/// backpack and ground alike.
pub open spec fn equip_apply(w: World, s: UseState, u: int) -> UseState {
    let item = w.wants_use@[u]->Some_0.item as int;
    let ts = targets_of(w, u);
    if w.equippable@[item] is Some && ts.len() > 0 {
        let slot = w.equippable@[item]->Some_0;
        let tgt = ts[0] as int;
        UseState {
            equipped: Seq::new(
                s.equipped.len(),
                |ie: int|
                    if ie == item {
                        Some(Equipped { owner: tgt as usize, slot })
                    } else if s.equipped[ie] is Some && s.equipped[ie]->Some_0.owner == tgt
                        && s.equipped[ie]->Some_0.slot == slot {
                        None
                    } else {
                        s.equipped[ie]
                    },
            ),
            backpack: Seq::new(
                s.backpack.len(),
                |ie: int|
                    if ie == item {
                        None
                    } else if s.equipped[ie] is Some && s.equipped[ie]->Some_0.owner == tgt
                        && s.equipped[ie]->Some_0.slot == slot {
                        Some(tgt as usize)
                    } else {
                        s.backpack[ie]
                    },
            ),
            position: if 0 <= item < s.position.len() {
                s.position.update(item, None)
            } else {
                s.position
            },
            ..s
        }
    } else {
        s
    }
}

/// Healing effect on the first `j` targets in order: each target with
/// combat stats heals by the amount, capped at its own maximum.
pub open spec fn heal_fold(
    stats: Seq<Option<CombatStats>>,
    ts: Seq<usize>,
    j: int,
    amount: int,
) -> Seq<Option<CombatStats>>
    decreases j,
{
    if j <= 0 {
        stats
    } else {
        let s = heal_fold(stats, ts, j - 1, amount);
        let t = ts[j - 1] as int;
        if 0 <= t < s.len() && s[t] is Some {
            let st = s[t]->Some_0;
            let nh = if st.hp + amount <= st.max_hp {
                st.hp + amount
            } else {
                st.max_hp as int
            };
            s.update(t, Some(CombatStats { hp: nh as i32, ..st }))
        } else {
            s
        }
    }
}

pub open spec fn heal_apply(w: World, s: UseState, u: int) -> UseState {
    let item = w.wants_use@[u]->Some_0.item as int;
    if w.provides_healing@[item] is Some {
        let ts = targets_of(w, u);
        UseState {
            stats: heal_fold(s.stats, ts, ts.len() as int, w.provides_healing@[item]->Some_0 as int),
            ..s
        }
    } else {
        s
    }
}

/// Damage effect on the first `j` targets in order: each target's
/// accumulator gains one pending amount.
pub open spec fn dmg_fold(suffer: Seq<Seq<i64>>, ts: Seq<usize>, j: int, amount: int) -> Seq<
    Seq<i64>,
>
    decreases j,
{
    if j <= 0 {
        suffer
    } else {
        let s = dmg_fold(suffer, ts, j - 1, amount);
        let t = ts[j - 1] as int;
        if 0 <= t < s.len() {
            s.update(t, s[t].push(amount as i64))
        } else {
            s
        }
    }
}

pub open spec fn dmg_apply(w: World, s: UseState, u: int) -> UseState {
    let item = w.wants_use@[u]->Some_0.item as int;
    if w.inflicts_damage@[item] is Some {
        let ts = targets_of(w, u);
        UseState {
            suffer: dmg_fold(s.suffer, ts, ts.len() as int, w.inflicts_damage@[item]->Some_0 as int),
            ..s
        }
    } else {
        s
    }
}

/// Mirrored-teleport effect: each target gets a pending teleport whose
/// caster is the user.
pub open spec fn tp_fold(tp: Seq<Option<usize>>, ts: Seq<usize>, j: int, u: int) -> Seq<
    Option<usize>,
>
    decreases j,
{
    if j <= 0 {
        tp
    } else {
        let s = tp_fold(tp, ts, j - 1, u);
        let t = ts[j - 1] as int;
        if 0 <= t < s.len() {
            s.update(t, Some(u as usize))
        } else {
            s
        }
    }
}

pub open spec fn tp_apply(w: World, s: UseState, u: int) -> UseState {
    let item = w.wants_use@[u]->Some_0.item as int;
    if w.inflicts_teleport@[item] {
        let ts = targets_of(w, u);
        UseState { tp_from: tp_fold(s.tp_from, ts, ts.len() as int, u), ..s }
    } else {
        s
    }
}

/// Confusion effect: each target gets the item's turns-remaining status.
pub open spec fn conf_fold(conf: Seq<Option<i32>>, ts: Seq<usize>, j: int, turns: i32) -> Seq<
    Option<i32>,
>
    decreases j,
{
    if j <= 0 {
        conf
    } else {
        let s = conf_fold(conf, ts, j - 1, turns);
        let t = ts[j - 1] as int;
        if 0 <= t < s.len() {
            s.update(t, Some(turns))
        } else {
            s
        }
    }
}

pub open spec fn conf_apply(w: World, s: UseState, u: int) -> UseState {
    let item = w.wants_use@[u]->Some_0.item as int;
    if w.confusion@[item] is Some {
        let ts = targets_of(w, u);
        UseState {
            confused: conf_fold(s.confused, ts, ts.len() as int, w.confusion@[item]->Some_0),
            ..s
        }
    } else {
        s
    }
}

/// The use consumes the item: some effect beyond bare targeting applied to
/// at least one target. Healing counts only when some target could be
/// healed; equipping never consumes.
pub open spec fn use_consumed(w: World, s: UseState, u: int) -> bool {
    let item = w.wants_use@[u]->Some_0.item as int;
    let ts = targets_of(w, u);
    ||| (w.provides_healing@[item] is Some && exists|j: int|
        0 <= j < ts.len() && 0 <= #[trigger] ts[j] < s.stats.len() && s.stats[ts[j] as int] is Some)
    ||| (w.inflicts_damage@[item] is Some && ts.len() > 0)
    ||| (w.inflicts_teleport@[item] && ts.len() > 0)
    ||| (w.confusion@[item] is Some && ts.len() > 0)
}

/// One user's whole item use: targeting, then every capability the item
/// has in fixed order, then consumption.
pub open spec fn use_step(w: World, s: UseState, u: int) -> UseState {
    if w.alive@[u] && w.wants_use@[u] is Some {
        let item = w.wants_use@[u]->Some_0.item as int;
        let s5 = conf_apply(w, tp_apply(w, dmg_apply(w, heal_apply(w, equip_apply(w, s, u), u), u), u), u);
        if use_consumed(w, s, u) && w.consumable@[item] {
            UseState { deletes: s5.deletes.push(item as usize), ..s5 }
        } else {
            s5
        }
    } else {
        s
    }
}

/// The state after the first `k` users' item uses.
pub open spec fn use_fold(w: World, k: int) -> UseState
    decreases k,
{
    if k <= 0 {
        use_state_of(w)
    } else {
        use_step(w, use_fold(w, k - 1), k - 1)
    }
}

/// The unequip notices one equip swap logs, over items with id below
/// `j`: one per item the swap takes off the player, carrying the item's
/// name, in id order. Unequips from other wearers, and of unnamed items,
/// go unannounced, as the interface only narrates the player.
pub open spec fn unequip_log(
    w: World,
    eqs: Seq<Option<Equipped>>,
    tgt: int,
    slot: EquipSlot,
    j: int,
) -> Seq<LogEvent>
    decreases j,
{
    if j <= 0 {
        Seq::empty()
    } else {
        let s = unequip_log(w, eqs, tgt, slot, j - 1);
        let ie = j - 1;
        if eqs[ie] is Some && eqs[ie]->Some_0.owner == tgt && eqs[ie]->Some_0.slot == slot && tgt
            == w.player_id && w.name@[ie] is Some {
            s.push(LogEvent::Unequip { name: w.name@[ie]->Some_0@ })
        } else {
            s
        }
    }
}

/// What one user's item use logs: the equip swap's unequip notices, or a
/// dropped-intent notice when an equippable item resolves to an empty
/// target list and the equip is skipped.
pub open spec fn use_step_log(w: World, s: UseState, u: int) -> Seq<LogEvent> {
    if w.alive@[u] && w.wants_use@[u] is Some {
        let item = w.wants_use@[u]->Some_0.item as int;
        let ts = targets_of(w, u);
        if w.equippable@[item] is Some {
            if ts.len() > 0 {
                unequip_log(w, s.equipped, ts[0] as int, w.equippable@[item]->Some_0, w.n())
            } else {
                seq![LogEvent::SkippedIntent { who: u as usize }]
            }
        } else {
            Seq::empty()
        }
    } else {
        Seq::empty()
    }
}

/// What the first `k` users' item uses log, in user order.
pub open spec fn use_log(w: World, k: int) -> Seq<LogEvent>
    decreases k,
{
    if k <= 0 {
        Seq::empty()
    } else {
        use_log(w, k - 1) + use_step_log(w, use_fold(w, k - 1), k - 1)
    }
}

/// What item-use resolution does: the affected components end as the fold
/// of every user's use over the starting state, use intents are drained,
/// the log records each equip swap and each dropped equip intent, and
/// nothing else of the world changes.
pub open spec fn use_rel(a: World, b: World) -> bool {
    let fs = use_fold(a, a.n());
    &&& b.combat_stats@ == fs.stats
    &&& forall|i: int| 0 <= i < a.n() ==> #[trigger] b.suffer_damage@[i]@ == fs.suffer[i]
    &&& b.equipped@ == fs.equipped
    &&& b.in_backpack@ == fs.backpack
    &&& b.position@ == fs.position
    &&& b.confused@ == fs.confused
    &&& b.teleport_from@ == fs.tp_from
    &&& b.pending_deletes@ == fs.deletes
    &&& forall|u: int| 0 <= u < a.n() ==> #[trigger] b.wants_use@[u] is None
    &&& b.suffer_damage@.len() == a.suffer_damage@.len()
    &&& b.wants_use@.len() == a.wants_use@.len()
    &&& log_of(b.log@) == log_of(a.log@) + use_log(a, a.n())
    &&& b == (World {
        combat_stats: b.combat_stats,
        suffer_damage: b.suffer_damage,
        equipped: b.equipped,
        in_backpack: b.in_backpack,
        position: b.position,
        confused: b.confused,
        teleport_from: b.teleport_from,
        pending_deletes: b.pending_deletes,
        wants_use: b.wants_use,
        log: b.log,
        ..a
    })
}

/// Collect the target list of user `u`'s intent.
fn compute_targets(w: &World, u: usize, intent: UseIntent) -> (ts: Vec<usize>)
    requires
        w.wf(),
        u < w.n(),
        w.wants_use@[u as int] == Some(intent),
    ensures
        ts@ == targets_of(*w, u as int),
        forall|j: int| 0 <= j < ts@.len() ==> #[trigger] ts@[j] < w.n(),
{
    let mut ts: Vec<usize> = Vec::new();
    proof {
        assert(w.entity_wf(u as int));
    }
    let item = intent.item;
    match intent.target {
        None => {
            ts.push(w.player_id);
            proof {
                assert(ts@ =~= targets_of(*w, u as int));
                assert(w.player_id < w.n());
            }
        },
        Some(pt) => {
            if w.map.in_bounds(pt.x, pt.y) {
                match w.area_of_effect[item] {
                    None => {
                        let idx = w.map.get_index_at(pt.x, pt.y);
                        let m = w.map.tile_content[idx].len();
                        let mut j: usize = 0;
                        while j < m
                            invariant
                                j <= m,
                                idx < w.map.tile_content@.len(),
                                m == w.map.tile_content@[idx as int]@.len(),
                                ts@ == w.map.tile_content@[idx as int]@.subrange(0, j as int),
                            decreases m - j,
                        {
                            let e = w.map.tile_content[idx][j];
                            ts.push(e);
                            proof {
                                assert(ts@ =~= w.map.tile_content@[idx as int]@.subrange(
                                    0,
                                    j + 1,
                                ));
                            }
                            j += 1;
                        }
                        proof {
                            assert(w.map.tile_content@[idx as int]@.subrange(0, m as int)
                                =~= w.map.tile_content@[idx as int]@);
                        }
                    },
                    Some(radius) => {
                        proof {
                            assert(w.entity_wf(item as int));
                        }
                        let fseq = crate::fov::field_of_view(&w.map, pt.x, pt.y, radius);
                        let fl = fseq.len();
                        let mut j: usize = 0;
                        while j < fl
                            invariant
                                j <= fl,
                                w.wf(),
                                fl == fseq@.len(),
                                fseq@ == crate::fov::fov_full(
                                    w.map,
                                    pt.x as int,
                                    pt.y as int,
                                    radius as int,
                                ),
                                ts@ == blast_targets(w.map, fseq@, j as int),
                            decreases fl - j,
                        {
                            let p = fseq[j];
                            if 0 < p.x && p.x < w.map.width - 1 && 0 < p.y && p.y < w.map.height
                                - 1 {
                                let idx = w.map.get_index_at(p.x, p.y);
                                let m = w.map.tile_content[idx].len();
                                let ghost base = ts@;
                                let mut j2: usize = 0;
                                while j2 < m
                                    invariant
                                        j2 <= m,
                                        idx < w.map.tile_content@.len(),
                                        m == w.map.tile_content@[idx as int]@.len(),
                                        ts@ == base + w.map.tile_content@[idx as int]@.subrange(
                                            0,
                                            j2 as int,
                                        ),
                                    decreases m - j2,
                                {
                                    let e = w.map.tile_content[idx][j2];
                                    ts.push(e);
                                    proof {
                                        assert(ts@ =~= base
                                            + w.map.tile_content@[idx as int]@.subrange(
                                            0,
                                            j2 + 1,
                                        ));
                                    }
                                    j2 += 1;
                                }
                                proof {
                                    assert(w.map.tile_content@[idx as int]@.subrange(0, m as int)
                                        =~= w.map.tile_content@[idx as int]@);
                                    assert(ts@ == blast_targets(w.map, fseq@, j + 1));
                                }
                            } else {
                                proof {
                                    assert(ts@ == blast_targets(w.map, fseq@, j + 1));
                                }
                            }
                            j += 1;
                        }
                    },
                }
            }
        },
    }
    proof {
        assert(ts@ == targets_of(*w, u as int));
        lemma_targets_bounded(*w, u as int);
    }
    ts
}

/// Under well-formedness every target is a real entity slot: the list
/// holds the player or occupants of the rebuilt tile index.
pub proof fn lemma_targets_bounded(w: World, u: int)
    requires
        w.wf(),
        0 <= u < w.n(),
        w.wants_use@[u] is Some,
    ensures
        forall|j: int|
            0 <= j < targets_of(w, u).len() ==> #[trigger] targets_of(w, u)[j] < w.n(),
{
    let intent = w.wants_use@[u]->Some_0;
    match intent.target {
        None => {
            assert(w.n() > 0);
        },
        Some(pt) => {
            if w.map.in_bounds_spec(pt.x as int, pt.y as int) {
                match w.area_of_effect@[intent.item as int] {
                    None => {
                        crate::map::lemma_idx_bounds(
                            w.map.width as int,
                            w.map.height as int,
                            pt.x as int,
                            pt.y as int,
                        );
                    },
                    Some(radius) => {
                        let fseq = crate::fov::fov_full(
                            w.map,
                            pt.x as int,
                            pt.y as int,
                            radius as int,
                        );
                        lemma_blast_bounded(w, fseq, fseq.len() as int);
                    },
                }
            }
        },
    }
}

pub proof fn lemma_blast_bounded(w: World, fseq: Seq<Pt>, j: int)
    requires
        w.wf(),
    ensures
        forall|k: int|
            0 <= k < blast_targets(w.map, fseq, j).len() ==> #[trigger] blast_targets(
                w.map,
                fseq,
                j,
            )[k] < w.n(),
    decreases j,
{
    if j > 0 {
        lemma_blast_bounded(w, fseq, j - 1);
        let s0 = blast_targets(w.map, fseq, j - 1);
        let p = fseq[j - 1];
        if 0 < p.x && p.x < w.map.width - 1 && 0 < p.y && p.y < w.map.height - 1 {
            crate::map::lemma_idx_bounds(
                w.map.width as int,
                w.map.height as int,
                p.x as int,
                p.y as int,
            );
            let idx = w.map.idx_of(p.x as int, p.y as int);
            let row = w.map.tile_content@[idx]@;
            assert forall|k: int| 0 <= k < blast_targets(w.map, fseq, j).len() implies
                #[trigger] blast_targets(w.map, fseq, j)[k] < w.n() by {
                if k < s0.len() {
                    assert(blast_targets(w.map, fseq, j)[k] == s0[k]);
                } else {
                    assert(blast_targets(w.map, fseq, j)[k] == row[k - s0.len()]);
                    assert(w.map.tile_content@[idx]@[k - s0.len()] < w.n());
                }
            }
        } else {
            assert forall|k: int| 0 <= k < blast_targets(w.map, fseq, j).len() implies
                #[trigger] blast_targets(w.map, fseq, j)[k] < w.n() by {
                assert(blast_targets(w.map, fseq, j) == s0);
                assert(s0[k] < w.n());
            }
        }
    }
}

pub struct ItemUseSystem {}

impl ItemUseSystem {
    /// Resolve every use intent: find the targets, apply each capability
    /// the item has in fixed order (equip swap, healing, damage, mirrored
    /// teleport, confusion), queue the item for deletion when consumed,
    /// and drain the intents.
    #[verifier::rlimit(100)]
    #[verifier::loop_isolation(true)]
    pub fn run(&mut self, w: &mut World)
        requires
            old(w).wf(),
        ensures
            final(w).wf(),
            use_rel(*old(w), *final(w)),
    {
        let n = w.alive.len();
        let mut u: usize = 0;
        while u < n
            invariant
                u <= n,
                n == w.n(),
                w.wf(),
                *w == (World {
                    combat_stats: w.combat_stats,
                    suffer_damage: w.suffer_damage,
                    equipped: w.equipped,
                    in_backpack: w.in_backpack,
                    position: w.position,
                    confused: w.confused,
                    teleport_from: w.teleport_from,
                    pending_deletes: w.pending_deletes,
                    log: w.log,
                    ..*old(w)
                }),
                log_of(w.log@) == log_of(old(w).log@) + use_log(*old(w), u as int),
                w.combat_stats@ == use_fold(*old(w), u as int).stats,
                forall|i: int|
                    0 <= i < n ==> #[trigger] w.suffer_damage@[i]@ == use_fold(
                        *old(w),
                        u as int,
                    ).suffer[i],
                w.suffer_damage@.len() == n,
                use_fold(*old(w), u as int).suffer.len() == n,
                w.equipped@ == use_fold(*old(w), u as int).equipped,
                w.in_backpack@ == use_fold(*old(w), u as int).backpack,
                w.position@ == use_fold(*old(w), u as int).position,
                w.confused@ == use_fold(*old(w), u as int).confused,
                w.teleport_from@ == use_fold(*old(w), u as int).tp_from,
                w.pending_deletes@ == use_fold(*old(w), u as int).deletes,
            decreases n - u,
        {
            let ghost s0 = use_fold(*old(w), u as int);
            let alive_u = w.alive[u];
            let intent_opt = w.wants_use[u];
            if alive_u && intent_opt.is_some() {
                let intent = intent_opt.unwrap();
                let item = intent.item;
                proof {
                    assert(w.entity_wf(u as int));
                    assert(w.entity_wf(item as int));
                }
                let targets = compute_targets(w, u, intent);
                proof {
                    assert(targets@ == targets_of(*old(w), u as int));
                }
                let tn = targets.len();
                let mut used = false;
                // Equip swap.
                let ghost step_log = use_step_log(*old(w), s0, u as int);
                let equippable_slot = w.equippable[item];
                if equippable_slot.is_some() && tn > 0 {
                    let slot = equippable_slot.unwrap();
                    let tgt = targets[0];
                    let ghost pre_eq = *w;
                    proof {
                        assert(pre_eq.equipped@ == s0.equipped);
                        assert(step_log == unequip_log(
                            *old(w),
                            pre_eq.equipped@,
                            tgt as int,
                            slot,
                            old(w).n(),
                        ));
                    }
                    let mut ie: usize = 0;
                    while ie < n
                        invariant
                            ie <= n,
                            n == w.n(),
                            w.wf(),
                            tgt < n,
                            *w == (World {
                                equipped: w.equipped,
                                in_backpack: w.in_backpack,
                                log: w.log,
                                ..pre_eq
                            }),
                            pre_eq.name == old(w).name,
                            pre_eq.player_id == old(w).player_id,
                            log_of(w.log@) == log_of(pre_eq.log@) + unequip_log(
                                *old(w),
                                pre_eq.equipped@,
                                tgt as int,
                                slot,
                                ie as int,
                            ),
                            forall|i2: int|
                                0 <= i2 < ie ==> #[trigger] w.equipped@[i2] == (
                                if pre_eq.equipped@[i2] is Some
                                    && pre_eq.equipped@[i2]->Some_0.owner == tgt
                                    && pre_eq.equipped@[i2]->Some_0.slot == slot {
                                    None::<Equipped>
                                } else {
                                    pre_eq.equipped@[i2]
                                }),
                            forall|i2: int|
                                0 <= i2 < ie ==> #[trigger] w.in_backpack@[i2] == (
                                if pre_eq.equipped@[i2] is Some
                                    && pre_eq.equipped@[i2]->Some_0.owner == tgt
                                    && pre_eq.equipped@[i2]->Some_0.slot == slot {
                                    Some(tgt)
                                } else {
                                    pre_eq.in_backpack@[i2]
                                }),
                            forall|i2: int|
                                ie <= i2 < n ==> #[trigger] w.equipped@[i2]
                                    == pre_eq.equipped@[i2],
                            forall|i2: int|
                                ie <= i2 < n ==> #[trigger] w.in_backpack@[i2]
                                    == pre_eq.in_backpack@[i2],
                        decreases n - ie,
                    {
                        let ghost pre2 = *w;
                        let mut matches_slot = false;
                        match w.equipped[ie] {
                            Some(eq) => {
                                if eq.owner == tgt && eq.slot == slot {
                                    matches_slot = true;
                                }
                            },
                            None => {},
                        }
                        if matches_slot {
                            w.equipped.set(ie, None);
                            w.in_backpack.set(ie, Some(tgt));
                            let ghost pre_log = w.log@;
                            let mut named: Option<LogEntry> = None;
                            if tgt == w.player_id {
                                match &w.name[ie] {
                                    Some(nm) => {
                                        named = Some(LogEntry::Unequip { name: nm.clone() });
                                    },
                                    None => {},
                                }
                            }
                            match named {
                                Some(entry) => {
                                    w.log.push(entry);
                                    proof {
                                        lemma_log_push(pre_log, entry);
                                        assert(pre2.equipped@[ie as int]
                                            == pre_eq.equipped@[ie as int]);
                                        assert(pre2.name@[ie as int] == old(w).name@[ie as int]);
                                        assert(pre2.player_id == old(w).player_id);
                                        assert(pre_eq.equipped@[ie as int] is Some
                                            && pre_eq.equipped@[ie as int]->Some_0.owner == tgt
                                            && pre_eq.equipped@[ie as int]->Some_0.slot == slot
                                            && tgt == old(w).player_id && old(
                                            w,
                                        ).name@[ie as int] is Some);
                                        assert(log_view(entry) == (LogEvent::Unequip {
                                            name: old(w).name@[ie as int]->Some_0@,
                                        }));
                                        assert(unequip_log(
                                            *old(w),
                                            pre_eq.equipped@,
                                            tgt as int,
                                            slot,
                                            ie + 1,
                                        ) == unequip_log(
                                            *old(w),
                                            pre_eq.equipped@,
                                            tgt as int,
                                            slot,
                                            ie as int,
                                        ).push(
                                            LogEvent::Unequip {
                                                name: old(w).name@[ie as int]->Some_0@,
                                            },
                                        ));
                                        assert(log_of(pre_eq.log@) + unequip_log(
                                            *old(w),
                                            pre_eq.equipped@,
                                            tgt as int,
                                            slot,
                                            ie + 1,
                                        ) =~= (log_of(pre_eq.log@) + unequip_log(
                                            *old(w),
                                            pre_eq.equipped@,
                                            tgt as int,
                                            slot,
                                            ie as int,
                                        )).push(
                                            LogEvent::Unequip {
                                                name: old(w).name@[ie as int]->Some_0@,
                                            },
                                        ));
                                    }
                                },
                                None => {
                                    proof {
                                        assert(pre2.equipped@[ie as int]
                                            == pre_eq.equipped@[ie as int]);
                                        assert(pre2.name@[ie as int] == old(w).name@[ie as int]);
                                        assert(pre2.player_id == old(w).player_id);
                                        assert(!(tgt == old(w).player_id && old(
                                            w,
                                        ).name@[ie as int] is Some));
                                        assert(unequip_log(
                                            *old(w),
                                            pre_eq.equipped@,
                                            tgt as int,
                                            slot,
                                            ie + 1,
                                        ) == unequip_log(
                                            *old(w),
                                            pre_eq.equipped@,
                                            tgt as int,
                                            slot,
                                            ie as int,
                                        ));
                                    }
                                },
                            }
                            proof {
                                assert(pre2.entity_wf(ie as int));
                                assert(pre2.location_exclusive(ie as int));
                                assert(pre2.position@[ie as int] is None);
                                assert forall|e2: int| 0 <= e2 < w.n() implies w.entity_wf(
                                    e2,
                                ) by {
                                    assert(pre2.entity_wf(e2));
                                }
                            }
                        } else {
                            proof {
                                assert(pre2.equipped@[ie as int] == pre_eq.equipped@[ie as int]);
                                assert(unequip_log(
                                    *old(w),
                                    pre_eq.equipped@,
                                    tgt as int,
                                    slot,
                                    ie + 1,
                                ) == unequip_log(
                                    *old(w),
                                    pre_eq.equipped@,
                                    tgt as int,
                                    slot,
                                    ie as int,
                                ));
                            }
                        }
                        ie += 1;
                    }
                    let ghost pre3 = *w;
                    w.equipped.set(item, Some(Equipped { owner: tgt, slot }));
                    w.in_backpack.set(item, None);
                    w.position.set(item, None);
                    proof {
                        assert forall|e2: int| 0 <= e2 < w.n() implies w.entity_wf(e2) by {
                            assert(pre3.entity_wf(e2));
                        }
                        let s1 = equip_apply(*old(w), s0, u as int);
                        assert(w.equipped@ =~= s1.equipped);
                        assert(w.in_backpack@ =~= s1.backpack);
                        assert(w.position@ =~= s1.position);
                        assert(log_of(w.log@) =~= log_of(old(w).log@) + use_log(
                            *old(w),
                            u as int,
                        ) + step_log);
                    }
                } else if equippable_slot.is_some() {
                    // An equippable item whose target list resolved empty:
                    // drop the equip with a diagnostic and go on.
                    let ghost pre_skip = *w;
                    let ghost pre_log = w.log@;
                    let entry = LogEntry::SkippedIntent { who: u };
                    w.log.push(entry);
                    proof {
                        assert(equip_apply(*old(w), s0, u as int) == s0);
                        assert forall|e2: int| 0 <= e2 < w.n() implies w.entity_wf(e2) by {
                            assert(pre_skip.entity_wf(e2));
                        }
                        lemma_log_push(pre_log, entry);
                        assert(step_log == seq![LogEvent::SkippedIntent { who: u }]);
                        assert(log_of(w.log@) =~= log_of(old(w).log@) + use_log(
                            *old(w),
                            u as int,
                        ) + step_log);
                    }
                } else {
                    proof {
                        assert(equip_apply(*old(w), s0, u as int) == s0);
                        assert(step_log =~= Seq::<LogEvent>::empty());
                        assert(log_of(w.log@) =~= log_of(old(w).log@) + use_log(
                            *old(w),
                            u as int,
                        ) + step_log);
                    }
                }
                let ghost s1 = equip_apply(*old(w), s0, u as int);
                // Healing.
                let heals = w.provides_healing[item];
                if heals.is_some() {
                    let amount = heals.unwrap();
                    let ghost pre_h = *w;
                    let mut j: usize = 0;
                    while j < tn
                        invariant
                            j <= tn,
                            n == w.n(),
                            w.wf(),
                            tn == targets@.len(),
                            targets@ == targets_of(*old(w), u as int),
                            0 <= amount <= crate::components::MAX_STAT,
                            *w == (World { combat_stats: w.combat_stats, log: w.log, ..pre_h }),
                            w.log == pre_h.log,
                            w.combat_stats@ == heal_fold(
                                pre_h.combat_stats@,
                                targets@,
                                j as int,
                                amount as int,
                            ),
                            (exists|j2: int|
                                0 <= j2 < j && 0 <= #[trigger] targets@[j2] < n
                                    && pre_h.combat_stats@[targets@[j2] as int] is Some) == used,
                        decreases tn - j,
                    {
                        let ghost pre2 = *w;
                        proof {
                            lemma_heal_presence(pre_h.combat_stats@, targets@, j as int, amount as int);
                        }
                        let t = targets[j];
                        if t < n {
                            if let Some(st) = w.combat_stats[t] {
                                proof {
                                    assert(w.entity_wf(t as int));
                                }
                                let nh = if st.hp + amount <= st.max_hp {
                                    st.hp + amount
                                } else {
                                    st.max_hp
                                };
                                w.combat_stats.set(t, Some(CombatStats { hp: nh, ..st }));
                                used = true;
                                proof {
                                    assert(heal_fold(
                                        pre_h.combat_stats@,
                                        targets@,
                                        j + 1,
                                        amount as int,
                                    ) == pre2.combat_stats@.update(
                                        t as int,
                                        Some(CombatStats { hp: nh, ..st }),
                                    ));
                                    assert forall|e2: int| 0 <= e2 < w.n() implies w.entity_wf(
                                        e2,
                                    ) by {
                                        assert(pre2.entity_wf(e2));
                                    }
                                    assert(pre_h.combat_stats@[targets@[j as int] as int]
                                        is Some);
                                    assert(0 <= j < j + 1 && 0 <= targets@[j as int] < n
                                        && pre_h.combat_stats@[targets@[j as int] as int]
                                        is Some);
                                }
                            } else {
                                proof {
                                    assert(pre_h.combat_stats@[targets@[j as int] as int]
                                        is None);
                                    if exists|j2: int|
                                        0 <= j2 < j + 1 && 0 <= #[trigger] targets@[j2] < n
                                            && pre_h.combat_stats@[targets@[j2] as int]
                                            is Some {
                                        let j2 = choose|j2: int|
                                            0 <= j2 < j + 1 && 0 <= #[trigger] targets@[j2] < n
                                                && pre_h.combat_stats@[targets@[j2] as int]
                                                is Some;
                                        assert(j2 < j);
                                    }
                                }
                            }
                        } else {
                            proof {
                                if exists|j2: int|
                                    0 <= j2 < j + 1 && 0 <= #[trigger] targets@[j2] < n
                                        && pre_h.combat_stats@[targets@[j2] as int] is Some {
                                    let j2 = choose|j2: int|
                                        0 <= j2 < j + 1 && 0 <= #[trigger] targets@[j2] < n
                                            && pre_h.combat_stats@[targets@[j2] as int]
                                            is Some;
                                    assert(j2 < j);
                                }
                            }
                        }
                        j += 1;
                    }
                    proof {
                        assert(w.combat_stats@ == heal_apply(*old(w), s1, u as int).stats);
                        assert(heal_apply(*old(w), s1, u as int) == (UseState {
                            stats: heal_apply(*old(w), s1, u as int).stats,
                            ..s1
                        }));
                    }
                } else {
                    proof {
                        assert(heal_apply(*old(w), s1, u as int) == s1);
                    }
                }
                let ghost s2 = heal_apply(*old(w), s1, u as int);
                // Direct damage.
                let damages = w.inflicts_damage[item];
                if damages.is_some() {
                    let amount = damages.unwrap();
                    let ghost pre_d = *w;
                    let mut j: usize = 0;
                    while j < tn
                        invariant
                            j <= tn,
                            n == w.n(),
                            w.wf(),
                            tn == targets@.len(),
                            targets@ == targets_of(*old(w), u as int),
                            0 <= amount <= crate::components::MAX_STAT,
                            *w == (World { suffer_damage: w.suffer_damage, log: w.log, ..pre_d }),
                            w.log == pre_d.log,
                            w.suffer_damage@.len() == n,
                            pre_d.suffer_damage@.len() == n,
                            forall|i2: int|
                                0 <= i2 < n ==> #[trigger] w.suffer_damage@[i2]@ == dmg_fold(
                                    Seq::new(
                                        pre_d.suffer_damage@.len(),
                                        |i3: int| pre_d.suffer_damage@[i3]@,
                                    ),
                                    targets@,
                                    j as int,
                                    amount as int,
                                )[i2],
                        decreases tn - j,
                    {
                        let ghost base = Seq::new(
                            pre_d.suffer_damage@.len(),
                            |i3: int| pre_d.suffer_damage@[i3]@,
                        );
                        let ghost pre2 = *w;
                        let t = targets[j];
                        if t < n {
                            w.suffer_push(t, amount as i64);
                            proof {
                                lemma_dmg_fold_len(base, targets@, j as int, amount as int);
                                lemma_dmg_fold_len(base, targets@, j + 1, amount as int);
                                assert(dmg_fold(base, targets@, j + 1, amount as int) == dmg_fold(
                                    base,
                                    targets@,
                                    j as int,
                                    amount as int,
                                ).update(
                                    t as int,
                                    dmg_fold(base, targets@, j as int, amount as int)[t as int]
                                        .push(amount as i64),
                                ));
                                assert forall|i2: int| 0 <= i2 < n implies
                                    #[trigger] w.suffer_damage@[i2]@ == dmg_fold(
                                    base,
                                    targets@,
                                    j + 1,
                                    amount as int,
                                )[i2] by {
                                    if i2 == t as int {
                                        assert(w.suffer_damage@[i2]@
                                            == pre2.suffer_damage@[i2]@.push(amount as i64));
                                    } else {
                                        assert(w.suffer_damage@[i2] == pre2.suffer_damage@[i2]);
                                    }
                                }
                            }
                        } else {
                            proof {
                                lemma_dmg_fold_len(base, targets@, j as int, amount as int);
                                assert(dmg_fold(base, targets@, j + 1, amount as int) == dmg_fold(
                                    base,
                                    targets@,
                                    j as int,
                                    amount as int,
                                ));
                            }
                        }
                        j += 1;
                    }
                    proof {
                        lemma_dmg_fold_len(
                            Seq::new(
                                pre_d.suffer_damage@.len(),
                                |i3: int| pre_d.suffer_damage@[i3]@,
                            ),
                            targets@,
                            tn as int,
                            amount as int,
                        );
                        assert(Seq::new(
                            pre_d.suffer_damage@.len(),
                            |i3: int| pre_d.suffer_damage@[i3]@,
                        ) =~= s2.suffer);
                    }
                    if tn > 0 {
                        used = true;
                    }
                } else {
                    proof {
                        assert(dmg_apply(*old(w), s2, u as int) == s2);
                    }
                }
                let ghost s3 = dmg_apply(*old(w), s2, u as int);
                // Mirrored teleport.
                let teleports = w.inflicts_teleport[item];
                if teleports {
                    let ghost pre_t = *w;
                    let mut j: usize = 0;
                    while j < tn
                        invariant
                            j <= tn,
                            n == w.n(),
                            w.wf(),
                            u < n,
                            tn == targets@.len(),
                            targets@ == targets_of(*old(w), u as int),
                            *w == (World { teleport_from: w.teleport_from, log: w.log, ..pre_t }),
                            w.log == pre_t.log,
                            w.teleport_from@ == tp_fold(
                                pre_t.teleport_from@,
                                targets@,
                                j as int,
                                u as int,
                            ),
                        decreases tn - j,
                    {
                        let ghost pre2 = *w;
                        let t = targets[j];
                        if t < n {
                            w.teleport_from.set(t, Some(u));
                            proof {
                                assert forall|e2: int| 0 <= e2 < w.n() implies w.entity_wf(
                                    e2,
                                ) by {
                                    assert(pre2.entity_wf(e2));
                                }
                            }
                        }
                        j += 1;
                    }
                    if tn > 0 {
                        used = true;
                    }
                    proof {
                        assert(w.teleport_from@ == tp_apply(*old(w), s3, u as int).tp_from);
                    }
                } else {
                    proof {
                        assert(tp_apply(*old(w), s3, u as int) == s3);
                    }
                }
                let ghost s4 = tp_apply(*old(w), s3, u as int);
                // Confusion.
                let confuses = w.confusion[item];
                if confuses.is_some() {
                    let turns = confuses.unwrap();
                    let ghost pre_c = *w;
                    let mut j: usize = 0;
                    while j < tn
                        invariant
                            j <= tn,
                            n == w.n(),
                            w.wf(),
                            tn == targets@.len(),
                            targets@ == targets_of(*old(w), u as int),
                            0 <= turns <= crate::components::MAX_STAT,
                            *w == (World { confused: w.confused, log: w.log, ..pre_c }),
                            w.log == pre_c.log,
                            w.confused@ == conf_fold(pre_c.confused@, targets@, j as int, turns),
                        decreases tn - j,
                    {
                        let ghost pre2 = *w;
                        let t = targets[j];
                        if t < n {
                            w.confused.set(t, Some(turns));
                            proof {
                                assert forall|e2: int| 0 <= e2 < w.n() implies w.entity_wf(
                                    e2,
                                ) by {
                                    assert(pre2.entity_wf(e2));
                                }
                            }
                        }
                        j += 1;
                    }
                    if tn > 0 {
                        used = true;
                    }
                    proof {
                        assert(w.confused@ == conf_apply(*old(w), s4, u as int).confused);
                    }
                } else {
                    proof {
                        assert(conf_apply(*old(w), s4, u as int) == s4);
                    }
                }
                let ghost s5 = conf_apply(*old(w), s4, u as int);
                // Consumption.
                proof {
                    assert(s1.stats == s0.stats);
                    assert(used == use_consumed(*old(w), s0, u as int));
                }
                if used && w.consumable[item] {
                    let ghost pre_del = *w;
                    w.pending_deletes.push(item);
                    proof {
                        assert forall|e2: int| 0 <= e2 < w.n() implies w.entity_wf(e2) by {
                            assert(pre_del.entity_wf(e2));
                        }
                    }
                }
                proof {
                    assert(use_fold(*old(w), u + 1) == use_step(*old(w), s0, u as int));
                    assert(use_log(*old(w), u + 1) == use_log(*old(w), u as int) + step_log);
                    assert(log_of(old(w).log@) + use_log(*old(w), u + 1) =~= log_of(
                        old(w).log@,
                    ) + use_log(*old(w), u as int) + step_log);
                }
            } else {
                proof {
                    assert(use_fold(*old(w), u + 1) == use_fold(*old(w), u as int));
                    assert(use_step_log(*old(w), use_fold(*old(w), u as int), u as int)
                        =~= Seq::<LogEvent>::empty());
                    assert(log_of(old(w).log@) + use_log(*old(w), u + 1) =~= log_of(
                        old(w).log@,
                    ) + use_log(*old(w), u as int));
                }
            }
            u += 1;
        }
        let mut e: usize = 0;
        while e < n
            invariant
                e <= n,
                n == w.n(),
                w.wf(),
                *w == (World {
                    combat_stats: w.combat_stats,
                    suffer_damage: w.suffer_damage,
                    equipped: w.equipped,
                    in_backpack: w.in_backpack,
                    position: w.position,
                    confused: w.confused,
                    teleport_from: w.teleport_from,
                    pending_deletes: w.pending_deletes,
                    wants_use: w.wants_use,
                    log: w.log,
                    ..*old(w)
                }),
                log_of(w.log@) == log_of(old(w).log@) + use_log(*old(w), n as int),
                w.combat_stats@ == use_fold(*old(w), n as int).stats,
                forall|i: int|
                    0 <= i < n ==> #[trigger] w.suffer_damage@[i]@ == use_fold(
                        *old(w),
                        n as int,
                    ).suffer[i],
                w.equipped@ == use_fold(*old(w), n as int).equipped,
                w.in_backpack@ == use_fold(*old(w), n as int).backpack,
                w.position@ == use_fold(*old(w), n as int).position,
                w.confused@ == use_fold(*old(w), n as int).confused,
                w.teleport_from@ == use_fold(*old(w), n as int).tp_from,
                w.pending_deletes@ == use_fold(*old(w), n as int).deletes,
                forall|e2: int| 0 <= e2 < e ==> #[trigger] w.wants_use@[e2] is None,
            decreases n - e,
        {
            let ghost pre = *w;
            w.wants_use.set(e, None);
            proof {
                assert forall|e2: int| 0 <= e2 < w.n() implies w.entity_wf(e2) by {
                    assert(pre.entity_wf(e2));
                }
            }
            e += 1;
        }
    }
}

/// The damage fold changes no accumulator count: it only appends.
pub proof fn lemma_dmg_fold_len(suffer: Seq<Seq<i64>>, ts: Seq<usize>, j: int, amount: int)
    ensures
        dmg_fold(suffer, ts, j, amount).len() == suffer.len(),
    decreases j,
{
    if j > 0 {
        lemma_dmg_fold_len(suffer, ts, j - 1, amount);
    }
}

pub proof fn lemma_heal_presence(
    base: Seq<Option<CombatStats>>,
    ts: Seq<usize>,
    j: int,
    amount: int,
)
    ensures
        heal_fold(base, ts, j, amount).len() == base.len(),
        forall|t: int|
            0 <= t < base.len() ==> (#[trigger] heal_fold(base, ts, j, amount)[t] is Some) == (
            base[t] is Some),
    decreases j,
{
    if j > 0 {
        lemma_heal_presence(base, ts, j - 1, amount);
    }
}

} // verus!
