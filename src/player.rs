use vstd::prelude::*;
use crate::geometry::Position;

verus! {

/// Health of a fresh or revived player; health never exceeds it.
pub const MAX_HEALTH: u64 = 100;

#[derive(Debug, Clone, Copy, PartialEq, Eq, Structural)]
pub enum Status {
    ALIVE,
    DEAD,
    DISCONNECTED,
}

/// What a player did during the current tick.
#[derive(Debug, Clone, Copy, PartialEq, Eq, Structural)]
pub enum PlayerAction {
    NOTHING,
    ATTACKING,
    ATTACKINGAOE,
}

/// A timed modifier placed on a character.
#[derive(Debug, Clone, Copy, PartialEq, Eq, Structural)]
pub enum Effect {
    Slowed,
    Stunned,
}

/// How a character's secondary attack works.
#[derive(Debug, Clone, Copy, PartialEq, Eq, Structural)]
pub enum Archetype {
    /// Strikes a square area at some distance.
    AreaEffect,
    /// Fires a projectile.
    Ranged,
}

/// The abilities and timed effects of a player.
#[derive(Debug, Clone)]
pub struct Character {
    pub speed: u64,
    pub attack_dmg: u64,
    /// Seconds between two melee or area attacks.
    pub cooldown: u64,
    pub archetype: Archetype,
    /// The effect, and its length in ticks, that an area attack places instead of damage.
    pub aoe_effect: Option<(Effect, u64)>,
    /// Active effects with the ticks each has left.
    pub status_effects: Vec<(Effect, u64)>,
}

/// `s` with `effect` set to last `ticks`: the first entry for `effect` is
/// replaced, or a new entry is appended.
pub open spec fn with_effect(s: Seq<(Effect, u64)>, effect: Effect, ticks: u64) -> Seq<
    (Effect, u64),
>
    decreases s.len(),
{
    if s.len() == 0 {
        seq![(effect, ticks)]
    } else if s[0].0 == effect {
        s.update(0, (effect, ticks))
    } else {
        seq![s[0]] + with_effect(s.drop_first(), effect, ticks)
    }
}

/// `s` one tick later: each entry loses a tick, and those left with none are dropped.
pub open spec fn decayed(s: Seq<(Effect, u64)>) -> Seq<(Effect, u64)>
    decreases s.len(),
{
    if s.len() == 0 {
        s
    } else {
        let rest = decayed(s.drop_last());
        let last = s.last();
        if last.1 > 1 {
            rest.push((last.0, (last.1 - 1) as u64))
        } else {
            rest
        }
    }
}

proof fn lemma_with_effect_at(s: Seq<(Effect, u64)>, effect: Effect, ticks: u64, i: int)
    requires
        0 <= i <= s.len(),
        forall|k: int| 0 <= k < i ==> s[k].0 != effect,
        i < s.len() ==> s[i].0 == effect,
    ensures
        with_effect(s, effect, ticks) == if i < s.len() {
            s.update(i, (effect, ticks))
        } else {
            s.push((effect, ticks))
        },
    decreases s.len(),
{
    if s.len() > 0 && i > 0 {
        let t = s.drop_first();
        assert forall|k: int| 0 <= k < i - 1 implies t[k].0 != effect by {
            assert(t[k] == s[k + 1]);
        }
        lemma_with_effect_at(t, effect, ticks, i - 1);
        if i < s.len() {
            assert(seq![s[0]] + t.update(i - 1, (effect, ticks)) =~= s.update(i, (effect, ticks)));
        } else {
            assert(seq![s[0]] + t.push((effect, ticks)) =~= s.push((effect, ticks)));
        }
    } else if s.len() == 0 {
        assert(seq![(effect, ticks)] =~= s.push((effect, ticks)));
    }
}

/// Each effect appears at most once: the entries form a map from effect to
/// ticks left.
pub open spec fn distinct_effects(s: Seq<(Effect, u64)>) -> bool {
    forall|i: int, j: int| 0 <= i < s.len() && 0 <= j < s.len() && i != j ==> #[trigger] s[i].0 != #[trigger] s[j].0
}

/// Every entry of `decayed(s)` is for an effect of `s`, and a map stays a map.
proof fn lemma_decayed_keys(s: Seq<(Effect, u64)>)
    ensures
        forall|l: int| 0 <= l < decayed(s).len() ==> exists|m: int| 0 <= m < s.len() && #[trigger] decayed(s)[l].0 == s[m].0,
        distinct_effects(s) ==> distinct_effects(decayed(s)),
    decreases s.len(),
{
    if s.len() > 0 {
        let t = s.drop_last();
        lemma_decayed_keys(t);
        let rest = decayed(t);
        let d = decayed(s);
        assert forall|l: int| 0 <= l < d.len() implies exists|m: int| 0 <= m < s.len() && #[trigger] d[l].0 == s[m].0 by {
            if l < rest.len() {
                assert(d[l] == rest[l]);
                let m = choose|m: int| 0 <= m < t.len() && #[trigger] rest[l].0 == t[m].0;
                assert(s[m] == t[m]);
            } else {
                assert(d[l].0 == s[s.len() - 1].0);
            }
        }
        if distinct_effects(s) {
            assert forall|i: int, j: int| 0 <= i < t.len() && 0 <= j < t.len() && i != j implies #[trigger] t[i].0 != #[trigger] t[j].0 by {
                assert(s[i] == t[i] && s[j] == t[j]);
            }
            assert forall|i: int, j: int| 0 <= i < d.len() && 0 <= j < d.len() && i != j implies #[trigger] d[i].0 != #[trigger] d[j].0 by {
                if i < rest.len() && j < rest.len() {
                    assert(d[i] == rest[i] && d[j] == rest[j]);
                } else if i < rest.len() {
                    assert(d[i] == rest[i]);
                    let m = choose|m: int| 0 <= m < t.len() && #[trigger] rest[i].0 == t[m].0;
                    assert(s[m] == t[m]);
                    assert(s[m].0 != s[s.len() - 1].0);
                } else if j < rest.len() {
                    assert(d[j] == rest[j]);
                    let m = choose|m: int| 0 <= m < t.len() && #[trigger] rest[j].0 == t[m].0;
                    assert(s[m] == t[m]);
                    assert(s[m].0 != s[s.len() - 1].0);
                }
            }
        }
    }
}

impl Character {
    /// No effect is listed twice.
    pub open spec fn wf(&self) -> bool {
        distinct_effects(self.status_effects@)
    }

    pub fn new(
        speed: u64,
        attack_dmg: u64,
        cooldown: u64,
        archetype: Archetype,
        aoe_effect: Option<(Effect, u64)>,
    ) -> (c: Character)
        ensures
            c.speed == speed,
            c.attack_dmg == attack_dmg,
            c.cooldown == cooldown,
            c.archetype == archetype,
            c.aoe_effect == aoe_effect,
            c.status_effects@.len() == 0,
            c.wf(),
    {
        Character { speed, attack_dmg, cooldown, archetype, aoe_effect, status_effects: Vec::new() }
    }

    /// The stats every new character starts with, under the given archetype.
    pub fn starter(archetype: Archetype) -> (c: Character)
        ensures
            c.speed == 3,
            c.attack_dmg == 10,
            c.cooldown == 1,
            c.archetype == archetype,
            c.aoe_effect.is_none(),
            c.status_effects@.len() == 0,
            c.wf(),
    {
        Character::new(3, 10, 1, archetype, None)
    }

    /// The archetype a new player's character gets: area effect for even ids,
    /// ranged for odd ones. Whether ids should decide this is an open question.
    pub fn archetype_for(player_id: u64) -> (a: Archetype)
        ensures
            a == if player_id % 2 == 0 {
                Archetype::AreaEffect
            } else {
                Archetype::Ranged
            },
    {
        if player_id % 2 == 0 {
            Archetype::AreaEffect
        } else {
            Archetype::Ranged
        }
    }

    pub fn speed(&self) -> (r: u64)
        ensures
            r == self.speed,
    {
        self.speed
    }

    pub fn attack_dmg(&self) -> (r: u64)
        ensures
            r == self.attack_dmg,
    {
        self.attack_dmg
    }

    pub fn cooldown(&self) -> (r: u64)
        ensures
            r == self.cooldown,
    {
        self.cooldown
    }

    /// The effect, with its length in ticks, that this character's area attack places.
    pub fn select_aoe_effect(&self) -> (r: Option<(Effect, u64)>)
        ensures
            r == self.aoe_effect,
    {
        self.aoe_effect
    }

    /// Places `effect` for `ticks` ticks, replacing what was left of an earlier one.
    pub fn add_effect(&mut self, effect: Effect, ticks: u64)
        ensures
            final(self).status_effects@ == with_effect(old(self).status_effects@, effect, ticks),
            old(self).wf() ==> final(self).wf(),
            final(self).speed == old(self).speed,
            final(self).attack_dmg == old(self).attack_dmg,
            final(self).cooldown == old(self).cooldown,
            final(self).archetype == old(self).archetype,
            final(self).aoe_effect == old(self).aoe_effect,
    {
        let mut i: usize = 0;
        while i < self.status_effects.len() && self.status_effects[i].0 != effect
            invariant
                i <= self.status_effects@.len(),
                forall|k: int| 0 <= k < i ==> self.status_effects@[k].0 != effect,
            decreases self.status_effects@.len() - i,
        {
            i = i + 1;
        }
        let ghost s0 = self.status_effects@;
        proof {
            lemma_with_effect_at(s0, effect, ticks, i as int);
        }
        if i < self.status_effects.len() {
            self.status_effects.set(i, (effect, ticks));
        } else {
            self.status_effects.push((effect, ticks));
        }
        proof {
            if distinct_effects(s0) {
                let s1 = self.status_effects@;
                assert forall|a: int, b: int| 0 <= a < s1.len() && 0 <= b < s1.len() && a != b implies #[trigger] s1[a].0 != #[trigger] s1[b].0 by {
                    if a != i && b != i {
                        assert(s1[a] == s0[a] && s1[b] == s0[b]);
                    } else if a == i && b < s0.len() {
                        assert(s1[b] == s0[b]);
                        if i < s0.len() {
                            assert(s0[i as int].0 == effect);
                        }
                    } else if b == i && a < s0.len() {
                        assert(s1[a] == s0[a]);
                        if i < s0.len() {
                            assert(s0[i as int].0 == effect);
                        }
                    }
                }
            }
        }
    }

    /// Ages every effect by one tick and drops those that run out.
    pub fn decay_effects(&mut self)
        ensures
            final(self).status_effects@ == decayed(old(self).status_effects@),
            old(self).wf() ==> final(self).wf(),
            final(self).speed == old(self).speed,
            final(self).attack_dmg == old(self).attack_dmg,
            final(self).cooldown == old(self).cooldown,
            final(self).archetype == old(self).archetype,
            final(self).aoe_effect == old(self).aoe_effect,
    {
        let mut kept: Vec<(Effect, u64)> = Vec::new();
        let mut i: usize = 0;
        while i < self.status_effects.len()
            invariant
                i <= self.status_effects@.len(),
                kept@ == decayed(self.status_effects@.subrange(0, i as int)),
            decreases self.status_effects@.len() - i,
        {
            let entry = self.status_effects[i];
            let left = entry.1.saturating_sub(1);
            if left != 0 {
                kept.push((entry.0, left));
            }
            proof {
                let pre = self.status_effects@.subrange(0, i + 1);
                assert(pre.drop_last() =~= self.status_effects@.subrange(0, i as int));
            }
            i = i + 1;
        }
        assert(self.status_effects@.subrange(0, i as int) =~= self.status_effects@);
        proof {
            lemma_decayed_keys(self.status_effects@);
        }
        self.status_effects = kept;
    }
}

pub struct Player {
    /// Stable for the game's lifetime and unique within it.
    pub id: u64,
    pub health: u64,
    pub position: Position,
    pub status: Status,
    /// Time of the last melee or area attack, in seconds.
    pub last_melee_attack: u64,
    pub kill_count: u64,
    pub character: Character,
    pub action: PlayerAction,
    /// Center of the player's last area attack.
    pub aoe_position: Position,
}

/// Health after taking `dmg` points of damage.
pub open spec fn health_after(health: u64, dmg: u64) -> u64 {
    if health <= dmg {
        0
    } else {
        (health - dmg) as u64
    }
}

/// Status after taking damage that leaves `health` points.
pub open spec fn status_after(status: Status, health: u64) -> Status {
    if health == 0 {
        Status::DEAD
    } else {
        status
    }
}

impl Player {
    /// Health stays within bounds, and a player is dead exactly when it has none.
    pub open spec fn wf(&self) -> bool {
        &&& self.health <= MAX_HEALTH
        &&& (self.status == Status::DEAD) == (self.health == 0)
    }

    /// Still on the board: alive, or disconnected while alive.
    pub open spec fn is_living(&self) -> bool {
        self.status != Status::DEAD
    }

    /// A player with `health` (at most `MAX_HEALTH`) at `position`, created at
    /// time `now`, so that its first attack waits out the cooldown. One with
    /// no health starts dead.
    pub fn new(id: u64, health: u64, position: Position, character: Character, now: u64) -> (p: Player)
        ensures
            p.wf(),
            p.id == id,
            p.health == if health > MAX_HEALTH {
                MAX_HEALTH
            } else {
                health
            },
            p.position == position,
            p.status == if health == 0 {
                Status::DEAD
            } else {
                Status::ALIVE
            },
            p.last_melee_attack == now,
            p.kill_count == 0,
            p.character == character,
            p.action == PlayerAction::NOTHING,
    {
        let health = if health > MAX_HEALTH {
            MAX_HEALTH
        } else {
            health
        };
        let status = if health == 0 {
            Status::DEAD
        } else {
            Status::ALIVE
        };
        Player {
            id,
            health,
            position,
            status,
            last_melee_attack: now,
            kill_count: 0,
            character,
            action: PlayerAction::NOTHING,
            aoe_position: position,
        }
    }

    /// Removes `dmg` health, down to zero; a player left with none is dead.
    pub fn take_damage(&mut self, dmg: u64)
        ensures
            final(self).health == health_after(old(self).health, dmg),
            final(self).status == status_after(old(self).status, final(self).health),
            final(self).id == old(self).id,
            final(self).position == old(self).position,
            final(self).last_melee_attack == old(self).last_melee_attack,
            final(self).kill_count == old(self).kill_count,
            final(self).character == old(self).character,
            final(self).action == old(self).action,
            final(self).aoe_position == old(self).aoe_position,
    {
        self.health = self.health.saturating_sub(dmg);
        if self.health == 0 {
            self.status = Status::DEAD;
        }
    }

    /// Adds `kills` to the kill counter, stopping at its largest value.
    pub fn add_kills(&mut self, kills: u64)
        ensures
            final(self).kill_count == if old(self).kill_count + kills > u64::MAX {
                u64::MAX as int
            } else {
                old(self).kill_count + kills
            },
            final(self).id == old(self).id,
            final(self).health == old(self).health,
            final(self).status == old(self).status,
            final(self).position == old(self).position,
            final(self).last_melee_attack == old(self).last_melee_attack,
            final(self).character == old(self).character,
            final(self).action == old(self).action,
            final(self).aoe_position == old(self).aoe_position,
    {
        self.kill_count = self.kill_count.saturating_add(kills);
    }
}

} // verus!
