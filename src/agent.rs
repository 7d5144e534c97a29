use crate::dice::{face_value, sum_faces, Damage, RandomSource};
use crate::geometry::{dist_sq, step_toward, Pos, UNIT};
use vstd::prelude::*;

verus! {

/// How close, in sub-units, an opponent must be to be attacked: 100 units.
pub const RANGE: i64 = 100_000;

/// The faces of the die that an attack roll uses.
pub const ATTACK_DIE: u32 = 20;

/// Which attack of the round comes next: 0 for the first.
pub type AttackInRound = i32;

/// One of the three attacks of a round, with its flat modifier.
#[derive(Clone, Copy, Debug, PartialEq, Eq, Structural)]
pub enum Attack {
    One(i32),
    Two(i32),
    Three(i32),
}

impl Attack {
    pub open spec fn bonus_spec(self) -> i32 {
        match self {
            Attack::One(b) => b,
            Attack::Two(b) => b,
            Attack::Three(b) => b,
        }
    }

    /// Every attack total fits in an `i32`.
    pub open spec fn fits(self) -> bool {
        self.bonus_spec() <= i32::MAX - ATTACK_DIE
    }

    pub fn bonus(&self) -> (r: i32)
        ensures
            r == self.bonus_spec(),
    {
        match self {
            Attack::One(b) => *b,
            Attack::Two(b) => *b,
            Attack::Three(b) => *b,
        }
    }

    /// The attack total when the d20 shows the face that `draw` selects:
    /// that face plus the modifier.
    pub fn total_from(&self, draw: u32) -> (r: i32)
        requires
            self.fits(),
        ensures
            r == face_value(draw, ATTACK_DIE as nat) + self.bonus_spec(),
    {
        ((draw % ATTACK_DIE) + 1) as i32 + self.bonus()
    }

    /// Rolls the attack: one d20 plus the modifier.
    pub fn roll<R: RandomSource>(&self, rng: &mut R) -> (r: i32)
        requires
            self.fits(),
        ensures
            self.bonus_spec() + 1 <= r <= self.bonus_spec() + ATTACK_DIE,
    {
        self.total_from(rng.draw())
    }
}

/// The three attacks of a round, with the given modifiers in order.
pub fn attacks(first: i32, second: i32, third: i32) -> (r: (Attack, Attack, Attack))
    ensures
        r == (Attack::One(first), Attack::Two(second), Attack::Three(third)),
{
    (Attack::One(first), Attack::Two(second), Attack::Three(third))
}

/// A combat profile: three attacks per round, one damage formula for all of
/// them, and an armor class.
#[derive(Clone, Copy, Debug, PartialEq, Eq)]
pub struct Stats {
    pub attacks: (Attack, Attack, Attack),
    pub damage: Damage,
    pub ac: i32,
}

impl Stats {
    /// Every roll the profile can make fits in an `i32`.
    pub open spec fn valid(self) -> bool {
        &&& self.attacks.0.fits()
        &&& self.attacks.1.fits()
        &&& self.attacks.2.fits()
        &&& self.damage.fits()
    }

    /// The attack made at `index` in a round: the first, the second, and the
    /// third for every later one.
    pub open spec fn slot_spec(self, index: AttackInRound) -> Attack {
        if index == 0 {
            self.attacks.0
        } else if index == 1 {
            self.attacks.1
        } else {
            self.attacks.2
        }
    }

    /// Where the attack made at `index` stands in the round: 1, 2 or 3.
    pub open spec fn ordinal_at(index: AttackInRound) -> u32 {
        if index == 0 {
            1
        } else if index == 1 {
            2
        } else {
            3
        }
    }

    pub fn ordinal_of(index: AttackInRound) -> (r: u32)
        ensures
            r == Stats::ordinal_at(index),
    {
        if index == 0 {
            1
        } else if index == 1 {
            2
        } else {
            3
        }
    }

    pub fn slot(&self, index: AttackInRound) -> (r: Attack)
        ensures
            r == self.slot_spec(index),
    {
        if index == 0 {
            self.attacks.0
        } else if index == 1 {
            self.attacks.1
        } else {
            self.attacks.2
        }
    }
}

/// What an attack came to, and which attack of the round it was.
#[derive(Clone, Copy, Debug, PartialEq, Eq, Structural)]
pub enum AttackOutcome {
    Hit { ordinal: u32, damage: i32 },
    Miss { ordinal: u32 },
}

/// Hit points after taking `damage`, held within the range of an `i32`.
pub open spec fn hp_after(hp: i32, damage: i32) -> i32 {
    if hp - damage < i32::MIN {
        i32::MIN
    } else if hp - damage > i32::MAX {
        i32::MAX
    } else {
        (hp - damage) as i32
    }
}

fn take_damage(hp: i32, damage: i32) -> (r: i32)
    ensures
        r == hp_after(hp, damage),
{
    let left: i64 = hp as i64 - damage as i64;
    if left < i32::MIN as i64 {
        i32::MIN
    } else if left > i32::MAX as i64 {
        i32::MAX
    } else {
        left as i32
    }
}

/// Whether two points are close enough for an attack.
pub open spec fn within_reach(a: Pos, b: Pos) -> bool {
    dist_sq(a, b) < RANGE * RANGE
}

/// A combatant.
#[derive(Clone, Debug)]
pub struct Agent {
    pub name: String,
    pub pos: Pos,
    pub stats: Stats,
    pub attacks_in_round: AttackInRound,
    pub hp: i32,
}

impl Agent {
    /// A position on the board and a profile whose rolls fit in an `i32`.
    pub open spec fn wf(self) -> bool {
        self.pos.bounded() && self.stats.valid()
    }

    /// An unnamed agent with 50 hit points, at the start of a round.
    pub fn new(pos: Pos, stats: Stats) -> (r: Agent)
        ensures
            r.name@ == Seq::<char>::empty(),
            r.pos == pos,
            r.stats == stats,
            r.attacks_in_round == 0,
            r.hp == 50,
    {
        Agent { name: String::new(), pos, stats, attacks_in_round: 0, hp: 50 }
    }

    /// Starts a new round: the next attack is the first again. Nothing else
    /// changes, so on an agent already at its first attack this does nothing.
    pub fn new_round(&mut self)
        ensures
            *final(self) == (Agent { attacks_in_round: 0, ..*old(self) }),
            old(self).attacks_in_round == 0 ==> *final(self) == *old(self),
    {
        self.attacks_in_round = 0;
    }

    /// Whether `other` is close enough to attack.
    pub fn in_range(&self, other: &Agent) -> (r: bool)
        requires
            self.pos.bounded(),
            other.pos.bounded(),
        ensures
            r == within_reach(self.pos, other.pos),
    {
        self.pos.dist_sq_to(&other.pos) < (RANGE * RANGE) as u64
    }

    /// Takes one step toward `other`.
    pub fn move_towards(&mut self, other: &Agent)
        requires
            old(self).pos.bounded(),
            other.pos.bounded(),
        ensures
            final(self).pos.x == step_toward(old(self).pos, other.pos).0,
            final(self).pos.y == step_toward(old(self).pos, other.pos).1,
            dist_sq(old(self).pos, other.pos) > UNIT * UNIT ==> final(self).pos.bounded(),
            final(self).name == old(self).name,
            final(self).stats == old(self).stats,
            final(self).attacks_in_round == old(self).attacks_in_round,
            final(self).hp == old(self).hp,
    {
        self.pos = self.pos.step_to(&other.pos);
    }

    /// The attack that comes next this round.
    pub open spec fn next_attack(self) -> Attack {
        self.stats.slot_spec(self.attacks_in_round)
    }

    /// Whether an attack total of `total` hits `other`.
    pub open spec fn hits(total: int, other: Agent) -> bool {
        total >= other.stats.ac
    }

    /// `outcome` and `after` (the defender afterwards) are what the next
    /// attack of `self` on `other` comes to when the d20 draw is
    /// `attack_draw` and, on a hit, the damage dice draws are `damage_draws`.
    pub open spec fn resolves(
        self,
        other: Agent,
        attack_draw: u32,
        damage_draws: Seq<u32>,
        outcome: AttackOutcome,
        after: Agent,
    ) -> bool {
        let slot = self.next_attack();
        let ordinal = Stats::ordinal_at(self.attacks_in_round);
        let total = face_value(attack_draw, ATTACK_DIE as nat) + slot.bonus_spec();
        let damage = sum_faces(damage_draws, self.stats.damage.0.faces_spec())
            + self.stats.damage.1.0;
        if Agent::hits(total, other) {
            &&& damage_draws.len() == self.stats.damage.0.rolls()
            &&& outcome == (AttackOutcome::Hit { ordinal, damage: damage as i32 })
            &&& after == (Agent { hp: hp_after(other.hp, damage as i32), ..other })
        } else {
            &&& outcome == (AttackOutcome::Miss { ordinal })
            &&& after == other
        }
    }

    /// Resolves the next attack against `other` when the d20 draw is
    /// `attack_draw` and, on a hit, the damage dice draws are `damage_draws`.
    /// A hit takes the damage off `other`'s hit points; hit or miss, the
    /// round moves on to the next attack.
    pub fn attack_with(&mut self, other: &mut Agent, attack_draw: u32, damage_draws: &Vec<u32>) -> (r:
        AttackOutcome)
        requires
            old(self).stats.valid(),
            old(self).attacks_in_round < i32::MAX,
            Agent::hits(
                face_value(attack_draw, ATTACK_DIE as nat) + old(self).next_attack().bonus_spec(),
                *old(other),
            ) ==> damage_draws.len() == old(self).stats.damage.0.rolls(),
        ensures
            ({
                let slot = old(self).next_attack();
                let total = face_value(attack_draw, ATTACK_DIE as nat) + slot.bonus_spec();
                let damage = sum_faces(damage_draws@, old(self).stats.damage.0.faces_spec())
                    + old(self).stats.damage.1.0;
                &&& *final(self) == (Agent {
                    attacks_in_round: (old(self).attacks_in_round + 1) as i32,
                    ..*old(self)
                })
                &&& Agent::hits(total, *old(other)) ==> r == (AttackOutcome::Hit {
                    ordinal: Stats::ordinal_at(old(self).attacks_in_round),
                    damage: damage as i32,
                }) && *final(other) == (Agent {
                    hp: hp_after(old(other).hp, damage as i32),
                    ..*old(other)
                })
                &&& !Agent::hits(total, *old(other)) ==> r == (AttackOutcome::Miss {
                    ordinal: Stats::ordinal_at(old(self).attacks_in_round),
                }) && *final(other) == *old(other)
            }),
            old(self).resolves(*old(other), attack_draw, damage_draws@, r, *final(other)),
    {
        let slot = self.stats.slot(self.attacks_in_round);
        let ordinal = Stats::ordinal_of(self.attacks_in_round);
        let total = slot.total_from(attack_draw);
        let outcome = if total >= other.stats.ac {
            let damage = self.stats.damage.total_from(damage_draws);
            other.hp = take_damage(other.hp, damage);
            AttackOutcome::Hit { ordinal, damage }
        } else {
            AttackOutcome::Miss { ordinal }
        };
        self.attacks_in_round = self.attacks_in_round + 1;
        outcome
    }

    /// Makes the next attack of the round against `other`, with the d20 and
    /// then, on a hit, the damage dice drawn from `rng`.
    pub fn attack<R: RandomSource>(&mut self, other: &mut Agent, rng: &mut R) -> (r: AttackOutcome)
        requires
            old(self).stats.valid(),
            old(self).attacks_in_round < i32::MAX,
        ensures
            *final(self) == (Agent {
                attacks_in_round: (old(self).attacks_in_round + 1) as i32,
                ..*old(self)
            }),
            old(other).stats.ac <= old(self).next_attack().bonus_spec() + 1 ==> r is Hit,
            old(other).stats.ac > old(self).next_attack().bonus_spec() + ATTACK_DIE ==> r is Miss,
            r is Hit ==> old(other).stats.ac <= old(self).next_attack().bonus_spec() + ATTACK_DIE,
            r is Miss ==> old(other).stats.ac > old(self).next_attack().bonus_spec() + 1,
            exists|attack_draw: u32, damage_draws: Seq<u32>|
                old(self).resolves(*old(other), attack_draw, damage_draws, r, *final(other)),
            r matches AttackOutcome::Hit { ordinal, damage } ==> {
                &&& ordinal == Stats::ordinal_at(old(self).attacks_in_round)
                &&& old(self).stats.damage.0.rolls() + old(self).stats.damage.1.0 <= damage
                    <= old(self).stats.damage.0.max_total() + old(self).stats.damage.1.0
                &&& *final(other) == (Agent { hp: hp_after(old(other).hp, damage), ..*old(other) })
            },
            r matches AttackOutcome::Miss { ordinal } ==> {
                &&& ordinal == Stats::ordinal_at(old(self).attacks_in_round)
                &&& *final(other) == *old(other)
            },
    {
        let slot = self.stats.slot(self.attacks_in_round);
        let attack_draw = rng.draw();
        let total = slot.total_from(attack_draw);
        let mut damage_draws: Vec<u32> = Vec::new();
        if total >= other.stats.ac {
            let n = self.stats.damage.0.count();
            let mut i: i32 = 0;
            while i < n
                invariant
                    n == self.stats.damage.0.count_spec(),
                    0 <= i,
                    n > 0 ==> i <= n,
                    n <= 0 ==> i == 0,
                    damage_draws.len() == i,
                decreases n - i,
            {
                damage_draws.push(rng.draw());
                i = i + 1;
            }
        }
        proof {
            if total >= other.stats.ac {
                crate::dice::lemma_sum_faces_bounds(
                    damage_draws@,
                    self.stats.damage.0.faces_spec(),
                );
            }
        }
        self.attack_with(other, attack_draw, &damage_draws)
    }
}

/// Past the second attack of a round every attack uses the third slot, so
/// a fourth attack without a reset still resolves against the third; only a
/// new round brings back the first.
pub proof fn lemma_slot_saturates_until_reset(a: Agent)
    requires
        a.attacks_in_round >= 2,
    ensures
        a.next_attack() == a.stats.attacks.2,
        (Agent { attacks_in_round: 3, ..a }).next_attack() == a.stats.attacks.2,
        (Agent { attacks_in_round: 0, ..a }).next_attack() == a.stats.attacks.0,
{
}

/// Being within reach of each other does not depend on who asks.
pub proof fn lemma_in_range_symmetric(a: Agent, b: Agent)
    ensures
        within_reach(a.pos, b.pos) == within_reach(b.pos, a.pos),
{
    assert(dist_sq(a.pos, b.pos) == dist_sq(b.pos, a.pos)) by (nonlinear_arith);
}

} // verus!
