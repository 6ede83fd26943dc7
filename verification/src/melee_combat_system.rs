//! Combat-resolution phase: turn every melee intent into pending damage on
//! the defender, applying equipment bonuses, and drain the intent storage.
//! A miss (zero damage) still consumes the intent.
use vstd::prelude::*;
use vstd::pervasive::VecAdditionalExecFns;
use crate::components::{lemma_log_push, log_of, LogEntry, LogEvent, MAX_DMG, MAX_ENTITIES, MAX_STAT};
use crate::world::World;

verus! {

/// Melee power bonus entity `i` grants `owner`: its bonus when it is an
/// alive item equipped by `owner`, zero otherwise.
pub open spec fn melee_bonus_at(w: World, owner: int, i: int) -> int {
    if w.alive@[i] && w.equipped@[i] is Some && w.equipped@[i]->Some_0.owner == owner
        && w.melee_power_bonus@[i] is Some {
        w.melee_power_bonus@[i]->Some_0 as int
    } else {
        0
    }
}

/// Sum of the melee power bonuses `owner` has equipped, over items with id
/// below `k`.
pub open spec fn melee_bonus_sum(w: World, owner: int, k: int) -> int
    decreases k,
{
    if k <= 0 {
        0
    } else {
        melee_bonus_sum(w, owner, k - 1) + melee_bonus_at(w, owner, k - 1)
    }
}

/// Defense bonus entity `i` grants `owner`.
pub open spec fn defense_bonus_at(w: World, owner: int, i: int) -> int {
    if w.alive@[i] && w.equipped@[i] is Some && w.equipped@[i]->Some_0.owner == owner
        && w.defense_bonus@[i] is Some {
        w.defense_bonus@[i]->Some_0 as int
    } else {
        0
    }
}

/// Sum of the defense bonuses `owner` has equipped, over items with id
/// below `k`.
pub open spec fn defense_bonus_sum(w: World, owner: int, k: int) -> int
    decreases k,
{
    if k <= 0 {
        0
    } else {
        defense_bonus_sum(w, owner, k - 1) + defense_bonus_at(w, owner, k - 1)
    }
}

/// The attacker is alive, holds a melee intent, and both it and its target
/// have combat stats; only then does the intent resolve to a hit attempt.
pub open spec fn melee_applies(w: World, att: int) -> bool {
    &&& w.alive@[att]
    &&& w.wants_melee@[att] is Some
    &&& w.combat_stats@[att] is Some
    &&& w.combat_stats@[w.wants_melee@[att]->Some_0 as int] is Some
}

/// Damage a resolving attack deals: attacker power plus its equipped melee
/// bonuses, less defender defense plus its equipped defense bonuses, never
/// negative.
pub open spec fn melee_damage(w: World, att: int) -> int {
    let tgt = w.wants_melee@[att]->Some_0 as int;
    let d = w.combat_stats@[att]->Some_0.power + melee_bonus_sum(w, att, w.n())
        - w.combat_stats@[tgt]->Some_0.defense - defense_bonus_sum(w, tgt, w.n());
    if d > 0 {
        d
    } else {
        0
    }
}

/// The pending-damage entries melee resolution appends to entity `t`:
/// one per attacker with id below `k` whose resolving attack targets `t`
/// and deals positive damage, in attacker order.
pub open spec fn melee_entries(w: World, t: int, k: int) -> Seq<i64>
    decreases k,
{
    if k <= 0 {
        Seq::empty()
    } else if melee_applies(w, k - 1) && w.wants_melee@[k - 1]->Some_0 == t && melee_damage(
        w,
        k - 1,
    ) > 0 {
        melee_entries(w, t, k - 1).push(melee_damage(w, k - 1) as i64)
    } else {
        melee_entries(w, t, k - 1)
    }
}

/// The diagnostics melee resolution logs, over attackers with id below
/// `k`: one dropped-intent notice per melee intent whose attacker or
/// target lacks combat stats, in attacker order.
pub open spec fn melee_log(w: World, k: int) -> Seq<LogEvent>
    decreases k,
{
    if k <= 0 {
        Seq::empty()
    } else if w.alive@[k - 1] && w.wants_melee@[k - 1] is Some && !melee_applies(w, k - 1) {
        melee_log(w, k - 1).push(LogEvent::SkippedIntent { who: (k - 1) as usize })
    } else {
        melee_log(w, k - 1)
    }
}

/// What melee resolution does: every defender's accumulator grows by
/// exactly the damage of the attacks that resolved against it, every
/// melee intent is drained, a diagnostic is logged for every dropped
/// intent, and nothing else of the world changes.
pub open spec fn melee_rel(a: World, b: World) -> bool {
    &&& forall|t: int|
        0 <= t < a.n() ==> #[trigger] b.suffer_damage@[t]@ == a.suffer_damage@[t]@ + melee_entries(
            a,
            t,
            a.n(),
        )
    &&& forall|e: int| 0 <= e < a.n() ==> #[trigger] b.wants_melee@[e] is None
    &&& b.suffer_damage@.len() == a.suffer_damage@.len()
    &&& b.wants_melee@.len() == a.wants_melee@.len()
    &&& log_of(b.log@) == log_of(a.log@) + melee_log(a, a.n())
    &&& b == (World { suffer_damage: b.suffer_damage, wants_melee: b.wants_melee, log: b.log, ..a })
}

/// Bonus sums depend only on liveness, equipment and bonus components:
/// two worlds agreeing on those agree on every bonus sum.
pub proof fn lemma_bonus_sums_same(a: World, b: World, owner: int, k: int)
    requires
        a.alive@ == b.alive@,
        a.equipped@ == b.equipped@,
        a.melee_power_bonus@ == b.melee_power_bonus@,
        a.defense_bonus@ == b.defense_bonus@,
    ensures
        melee_bonus_sum(a, owner, k) == melee_bonus_sum(b, owner, k),
        defense_bonus_sum(a, owner, k) == defense_bonus_sum(b, owner, k),
    decreases k,
{
    if k > 0 {
        lemma_bonus_sums_same(a, b, owner, k - 1);
    }
}

/// Sum the melee power bonuses of everything `owner` has equipped.
fn melee_bonus_total(w: &World, owner: usize) -> (s: i64)
    requires
        w.wf(),
    ensures
        s == melee_bonus_sum(*w, owner as int, w.n()),
        0 <= s <= w.n() * MAX_STAT,
{
    let n = w.alive.len();
    let mut s: i64 = 0;
    let mut i: usize = 0;
    while i < n
        invariant
            i <= n,
            n == w.n(),
            w.wf(),
            s == melee_bonus_sum(*w, owner as int, i as int),
            0 <= s <= i * MAX_STAT,
        decreases n - i,
    {
        if w.alive[i] {
            if let Some(eq) = w.equipped[i] {
                if eq.owner == owner {
                    if let Some(b) = w.melee_power_bonus[i] {
                        proof {
                            assert(w.entity_wf(i as int));
                        }
                        s = s + (b as i64);
                    }
                }
            }
        }
        i += 1;
    }
    s
}

/// Sum the defense bonuses of everything `owner` has equipped.
fn defense_bonus_total(w: &World, owner: usize) -> (s: i64)
    requires
        w.wf(),
    ensures
        s == defense_bonus_sum(*w, owner as int, w.n()),
        0 <= s <= w.n() * MAX_STAT,
{
    let n = w.alive.len();
    let mut s: i64 = 0;
    let mut i: usize = 0;
    while i < n
        invariant
            i <= n,
            n == w.n(),
            w.wf(),
            s == defense_bonus_sum(*w, owner as int, i as int),
            0 <= s <= i * MAX_STAT,
        decreases n - i,
    {
        if w.alive[i] {
            if let Some(eq) = w.equipped[i] {
                if eq.owner == owner {
                    if let Some(b) = w.defense_bonus[i] {
                        proof {
                            assert(w.entity_wf(i as int));
                        }
                        s = s + (b as i64);
                    }
                }
            }
        }
        i += 1;
    }
    s
}

pub struct MeleeCombatSystem {}

impl MeleeCombatSystem {
    /// Resolve every melee intent into pending damage and drain the
    /// intents. An intent whose attacker or target lacks combat stats is
    /// dropped with a diagnostic log entry; the other intents still
    /// resolve.
    pub fn run(&mut self, w: &mut World)
        requires
            old(w).wf(),
        ensures
            final(w).wf(),
            melee_rel(*old(w), *final(w)),
    {
        let n = w.alive.len();
        let mut att: usize = 0;
        while att < n
            invariant
                att <= n,
                n == w.n(),
                w.wf(),
                *w == (World { suffer_damage: w.suffer_damage, log: w.log, ..*old(w) }),
                log_of(w.log@) == log_of(old(w).log@) + melee_log(*old(w), att as int),
                forall|t: int| #![trigger w.suffer_damage@[t]]
                    0 <= t < n ==> w.suffer_damage@[t]@ == old(w).suffer_damage@[t]@
                        + melee_entries(*old(w), t, att as int),
            decreases n - att,
        {
            let ghost pre = *w;
            if w.alive[att] {
                if let Some(target) = w.wants_melee[att] {
                    proof {
                        assert(w.entity_wf(att as int));
                    }
                    let att_stats = w.combat_stats[att];
                    let tgt_stats = w.combat_stats[target];
                    match (att_stats, tgt_stats) {
                        (Some(ast), Some(tst)) => {
                            let mb = melee_bonus_total(w, att);
                            let db = defense_bonus_total(w, target);
                            let d: i64 = (ast.power as i64) + mb - (tst.defense as i64) - db;
                            proof {
                                assert(w.n() * MAX_STAT <= MAX_ENTITIES * MAX_STAT);
                                lemma_bonus_sums_same(*w, *old(w), att as int, w.n());
                                lemma_bonus_sums_same(*w, *old(w), target as int, w.n());
                                assert(melee_applies(*old(w), att as int));
                                assert(melee_damage(*old(w), att as int) == (if d > 0 {
                                    d as int
                                } else {
                                    0
                                }));
                            }
                            if d > 0 {
                                w.suffer_push(target, d);
                                proof {
                                    assert forall|t: int| #![trigger w.suffer_damage@[t]]
                                        0 <= t < n implies w.suffer_damage@[t]@ == old(
                                    w,
                                    ).suffer_damage@[t]@ + melee_entries(*old(w), t, att + 1) by {
                                        if t == target {
                                            assert(old(w).suffer_damage@[t]@ + melee_entries(
                                                *old(w),
                                                t,
                                                att + 1,
                                            ) =~= (old(w).suffer_damage@[t]@ + melee_entries(
                                                *old(w),
                                                t,
                                                att as int,
                                            )).push(melee_damage(*old(w), att as int) as i64));
                                        } else {
                                            assert(w.suffer_damage@[t] == pre.suffer_damage@[t]);
                                        }
                                    }
                                }
                            } else {
                                proof {
                                    assert forall|t: int| #![trigger w.suffer_damage@[t]]
                                        0 <= t < n implies w.suffer_damage@[t]@ == old(
                                    w,
                                    ).suffer_damage@[t]@ + melee_entries(*old(w), t, att + 1) by {}
                                }
                            }
                        },
                        _ => {
                            let entry = LogEntry::SkippedIntent { who: att };
                            w.log.push(entry);
                            proof {
                                assert forall|e2: int| 0 <= e2 < w.n() implies w.entity_wf(
                                    e2,
                                ) by {
                                    assert(pre.entity_wf(e2));
                                }
                                assert(!melee_applies(*old(w), att as int));
                                lemma_log_push(
                                    pre.log@,
                                    LogEntry::SkippedIntent { who: att },
                                );
                                assert(log_of(old(w).log@) + melee_log(*old(w), att + 1)
                                    =~= (log_of(old(w).log@) + melee_log(
                                    *old(w),
                                    att as int,
                                )).push(LogEvent::SkippedIntent { who: att }));
                                assert forall|t: int| #![trigger w.suffer_damage@[t]]
                                    0 <= t < n implies w.suffer_damage@[t]@ == old(
                                w,
                                ).suffer_damage@[t]@ + melee_entries(*old(w), t, att + 1) by {}
                            }
                        },
                    }
                } else {
                    proof {
                        assert forall|t: int| #![trigger w.suffer_damage@[t]]
                            0 <= t < n implies w.suffer_damage@[t]@ == old(w).suffer_damage@[t]@
                            + melee_entries(*old(w), t, att + 1) by {}
                    }
                }
            } else {
                proof {
                    assert forall|t: int| #![trigger w.suffer_damage@[t]]
                        0 <= t < n implies w.suffer_damage@[t]@ == old(w).suffer_damage@[t]@
                        + melee_entries(*old(w), t, att + 1) by {}
                }
            }
            att += 1;
        }
        let mut e: usize = 0;
        while e < n
            invariant
                e <= n,
                n == w.n(),
                w.wf(),
                *w == (World {
                    suffer_damage: w.suffer_damage,
                    wants_melee: w.wants_melee,
                    log: w.log,
                    ..*old(w)
                }),
                log_of(w.log@) == log_of(old(w).log@) + melee_log(*old(w), n as int),
                forall|t: int| #![trigger w.suffer_damage@[t]]
                    0 <= t < n ==> w.suffer_damage@[t]@ == old(w).suffer_damage@[t]@
                        + melee_entries(*old(w), t, n as int),
                forall|e2: int| 0 <= e2 < e ==> #[trigger] w.wants_melee@[e2] is None,
            decreases n - e,
        {
            let ghost pre = *w;
            w.wants_melee.set(e, None);
            proof {
                assert forall|e2: int| 0 <= e2 < w.n() implies w.entity_wf(e2) by {
                    assert(pre.entity_wf(e2));
                }
            }
            e += 1;
        }
    }
}

} // verus!
