use crate::agent::{hp_after, within_reach, Agent, AttackOutcome, ATTACK_DIE};
use crate::geometry::{step_toward, Pos};
use crate::dice::RandomSource;
use vstd::prelude::*;

verus! {

/// How many moves or attacks an agent makes in its turn.
pub const ACTIONS_PER_TURN: u32 = 3;

/// The agents of `roster` that are still standing, in their order.
pub open spec fn survivors(roster: Seq<Agent>) -> Seq<Agent> {
    roster.filter(|a: Agent| a.hp > 0)
}

/// Removes every agent whose hit points are down to zero or below, keeping
/// the others in their order.
pub fn check_dead(agents: &mut Vec<Agent>)
    ensures
        final(agents)@ == survivors(old(agents)@),
{
    let ghost start = agents@;
    let mut kept: Vec<Agent> = Vec::new();
    let n = agents.len();
    let mut i: usize = 0;
    while i < n
        invariant
            n == start.len(),
            0 <= i <= n,
            agents@ == start.skip(i as int),
            kept@ == survivors(start.take(i as int)),
        decreases n - i,
    {
        let agent = agents.remove(0);
        proof {
            assert(start.take(i as int + 1) =~= start.take(i as int).push(agent));
            start.take(i as int).lemma_filter_push(agent, |a: Agent| a.hp > 0);
            assert(agents@ =~= start.skip(i as int + 1));
        }
        if agent.hp > 0 {
            kept.push(agent);
        }
        i = i + 1;
    }
    assert(start.take(n as int) =~= start);
    *agents = kept;
}

proof fn lemma_survivors_of_pair(a: Agent, b: Agent)
    ensures
        survivors(seq![a, b]) == if a.hp > 0 && b.hp > 0 {
            seq![a, b]
        } else if a.hp > 0 {
            seq![a]
        } else if b.hp > 0 {
            seq![b]
        } else {
            Seq::<Agent>::empty()
        },
{
    let pred = |x: Agent| x.hp > 0;
    Seq::<Agent>::empty().lemma_filter_push(a, pred);
    seq![a].lemma_filter_push(b, pred);
    assert(Seq::<Agent>::empty().push(a) =~= seq![a]);
    assert(seq![a].push(b) =~= seq![a, b]);
    reveal_with_fuel(Seq::filter, 1);
    assert(Seq::<Agent>::empty().filter(pred) =~= Seq::<Agent>::empty());
}

/// An attack made during a round, with the attacker and the defender given
/// by their places in the roster as the round began.
#[derive(Clone, Copy, Debug, PartialEq, Eq, Structural)]
pub struct Strike {
    pub attacker: usize,
    pub defender: usize,
    pub outcome: AttackOutcome,
}

/// Where an agent that starts at `p` stands after `n` actions against a foe
/// standing at `t`: it steps toward `t` while out of reach, and stays put
/// once within it.
pub open spec fn walk(p: Pos, t: Pos, n: nat) -> Pos
    decreases n,
{
    if n == 0 {
        p
    } else {
        let q = walk(p, t, (n - 1) as nat);
        if within_reach(q, t) {
            q
        } else {
            Pos { x: step_toward(q, t).0 as i64, y: step_toward(q, t).1 as i64 }
        }
    }
}

/// How many of those first `n` actions are attacks.
pub open spec fn attacks_made(p: Pos, t: Pos, n: nat) -> nat
    decreases n,
{
    if n == 0 {
        0
    } else {
        attacks_made(p, t, (n - 1) as nat) + if within_reach(walk(p, t, (n - 1) as nat), t) {
            1nat
        } else {
            0nat
        }
    }
}

/// Hit points after the hits among `outcomes` land, in order.
pub open spec fn hp_after_hits(hp: i32, outcomes: Seq<AttackOutcome>) -> i32
    decreases outcomes.len(),
{
    if outcomes.len() == 0 {
        hp
    } else {
        let before = hp_after_hits(hp, outcomes.drop_last());
        match outcomes.last() {
            AttackOutcome::Hit { damage, .. } => hp_after(before, damage),
            AttackOutcome::Miss { .. } => before,
        }
    }
}

pub open spec fn ordinal_of(o: AttackOutcome) -> u32 {
    match o {
        AttackOutcome::Hit { ordinal, .. } => ordinal,
        AttackOutcome::Miss { ordinal } => ordinal,
    }
}

/// `o` can be the outcome of the attack made at `index` in a round by
/// `attacker` on `defender`: it carries that place in the round, and it hits
/// only if some face of the d20 reaches the defender's armor class, and
/// misses only if some face falls short of it.
pub open spec fn outcome_fits(o: AttackOutcome, index: int, attacker: Agent, defender: Agent) -> bool {
    let slot = attacker.stats.slot_spec(index as i32);
    &&& ordinal_of(o) == index + 1
    &&& o is Hit ==> defender.stats.ac <= slot.bonus_spec() + ATTACK_DIE
    &&& o is Miss ==> defender.stats.ac > slot.bonus_spec() + 1
}

/// One agent's turn: `ACTIONS_PER_TURN` times, it steps toward `foe` while
/// out of range, and otherwise makes its next attack on it. The `i`-th
/// attack uses the `i`-th slot; only its hits change the foe.
pub fn turn_block<R: RandomSource>(actor: &mut Agent, foe: &mut Agent, rng: &mut R) -> (r: Vec<
    AttackOutcome,
>)
    requires
        old(actor).wf(),
        old(foe).pos.bounded(),
        old(actor).attacks_in_round == 0,
    ensures
        final(actor).wf(),
        *final(actor) == (Agent {
            pos: walk(old(actor).pos, old(foe).pos, ACTIONS_PER_TURN as nat),
            attacks_in_round: r.len() as i32,
            ..*old(actor)
        }),
        *final(foe) == (Agent { hp: hp_after_hits(old(foe).hp, r@), ..*old(foe) }),
        r.len() == attacks_made(old(actor).pos, old(foe).pos, ACTIONS_PER_TURN as nat),
        r.len() <= ACTIONS_PER_TURN,
        forall|i: int| 0 <= i < r.len() ==> outcome_fits(#[trigger] r@[i], i, *old(actor), *old(foe)),
{
    let ghost p0 = actor.pos;
    let mut outcomes: Vec<AttackOutcome> = Vec::new();
    let mut k: u32 = 0;
    while k < ACTIONS_PER_TURN
        invariant
            0 <= k <= ACTIONS_PER_TURN,
            actor.wf(),
            *actor == (Agent {
                pos: walk(p0, foe.pos, k as nat),
                attacks_in_round: outcomes.len() as i32,
                ..*old(actor)
            }),
            p0 == old(actor).pos,
            *foe == (Agent { hp: hp_after_hits(old(foe).hp, outcomes@), ..*old(foe) }),
            outcomes.len() == attacks_made(p0, foe.pos, k as nat),
            outcomes.len() <= k,
            foe.pos.bounded(),
            forall|i: int|
                0 <= i < outcomes.len() ==> outcome_fits(
                    #[trigger] outcomes@[i],
                    i,
                    *old(actor),
                    *old(foe),
                ),
        decreases ACTIONS_PER_TURN - k,
    {
        let ghost before = outcomes@;
        if !actor.in_range(foe) {
            actor.move_towards(foe);
        } else {
            let outcome = actor.attack(foe, rng);
            outcomes.push(outcome);
            assert(outcomes@.drop_last() =~= before);
        }
        k = k + 1;
    }
    outcomes
}

/// The roster of a battle, in turn order.
pub struct Battle {
    pub agents: Vec<Agent>,
}

impl Battle {
    /// At most two agents, all standing, at the start of a round, and each
    /// on the board with a profile whose rolls fit in an `i32`.
    pub open spec fn wf(self) -> bool {
        &&& self.agents.len() <= 2
        &&& forall|i: int|
            0 <= i < self.agents.len() ==> {
                &&& #[trigger] self.agents@[i].wf()
                &&& self.agents@[i].hp > 0
                &&& self.agents@[i].attacks_in_round == 0
            }
    }

    /// A battle between `first`, who acts first in every round, and
    /// `second`; an agent that is already down does not take part.
    pub fn new(first: Agent, second: Agent) -> (r: Battle)
        requires
            first.wf(),
            second.wf(),
        ensures
            r.wf(),
            r.agents@ == survivors(
                seq![
                    Agent { attacks_in_round: 0, ..first },
                    Agent { attacks_in_round: 0, ..second },
                ],
            ),
    {
        let mut first = first;
        let mut second = second;
        first.new_round();
        second.new_round();
        proof {
            lemma_survivors_of_pair(first, second);
        }
        let mut agents: Vec<Agent> = Vec::new();
        agents.push(first);
        agents.push(second);
        assert(agents@ =~= seq![first, second]);
        check_dead(&mut agents);
        Battle { agents }
    }

    /// The battle is over once fewer than two agents stand.
    pub fn is_over(&self) -> (r: bool)
        ensures
            r == (self.agents.len() < 2),
    {
        self.agents.len() < 2
    }

    /// The last agent standing, once the battle is over with one.
    pub fn winner(&self) -> (r: Option<&Agent>)
        ensures
            self.agents.len() == 1 ==> r == Some(&self.agents@[0]),
            self.agents.len() != 1 ==> r.is_none(),
    {
        if self.agents.len() == 1 {
            Some(&self.agents[0])
        } else {
            None
        }
    }

    /// Plays one round: the first agent takes its turn against the second,
    /// the fallen are removed, the second agent (if still standing) takes
    /// its turn, the fallen are removed again, and the survivors start a new
    /// round. A battle that is over stays as it is.
    ///
    /// Movement and the number of attacks are fixed by the positions alone;
    /// what the random source decides is which attacks hit and for how much,
    /// and the hit points that come out are those of the returned strikes.
    pub fn step<R: RandomSource>(&mut self, rng: &mut R) -> (r: Vec<Strike>)
        requires
            old(self).wf(),
        ensures
            final(self).wf(),
            old(self).agents.len() < 2 ==> final(self).agents@ == old(self).agents@ && r.len()
                == 0,
            old(self).agents.len() == 2 ==> round_played(
                old(self).agents@[0],
                old(self).agents@[1],
                r@,
                final(self).agents@,
            ),
    {
        let mut strikes: Vec<Strike> = Vec::new();
        if self.agents.len() < 2 {
            return strikes;
        }
        let ghost start = self.agents@;
        assert(start[0].wf() && start[1].wf());
        let mut b = self.agents.pop().unwrap();
        let mut a = self.agents.pop().unwrap();
        assert(a == start[0] && b == start[1]);
        let outcomes = turn_block(&mut a, &mut b, rng);
        let mut i: usize = 0;
        while i < outcomes.len()
            invariant
                0 <= i <= outcomes.len() <= ACTIONS_PER_TURN,
                strikes.len() == i,
                forall|j: int|
                    0 <= j < strikes.len() ==> #[trigger] strikes@[j] == (Strike {
                        attacker: 0,
                        defender: 1,
                        outcome: outcomes@[j],
                    }),
            decreases outcomes.len() - i,
        {
            strikes.push(Strike { attacker: 0, defender: 1, outcome: outcomes[i] });
            i = i + 1;
        }
        let n1 = strikes.len();
        let ghost first = strikes@;
        let ghost outs1 = outcomes@;
        let ghost a1 = a;
        let ghost b1 = b;
        let ghost mut a2 = a;
        let ghost mut b2 = b;
        let ghost mut outs2: Seq<AttackOutcome> = Seq::empty();
        assert(outcomes_of(strikes@.subrange(0, n1 as int)) =~= outcomes@);
        let mut roster: Vec<Agent> = Vec::new();
        roster.push(a);
        roster.push(b);
        proof {
            assert(roster@ =~= seq![a, b]);
            lemma_survivors_of_pair(a, b);
        }
        check_dead(&mut roster);
        if roster.len() == 2 {
            let mut b = roster.pop().unwrap();
            let mut a = roster.pop().unwrap();
            let outcomes = turn_block(&mut b, &mut a, rng);
            proof {
                a2 = a;
                b2 = b;
                outs2 = outcomes@;
            }
            let mut i: usize = 0;
            while i < outcomes.len()
                invariant
                    0 <= i <= outcomes.len() <= ACTIONS_PER_TURN,
                    n1 <= ACTIONS_PER_TURN,
                    strikes.len() == n1 + i,
                    first.len() == n1,
                    strikes@.subrange(0, n1 as int) == first,
                    forall|j: int|
                        0 <= j < i ==> #[trigger] strikes@[n1 + j] == (Strike {
                            attacker: 1,
                            defender: 0,
                            outcome: outcomes@[j],
                        }),
                decreases outcomes.len() - i,
            {
                strikes.push(Strike { attacker: 1, defender: 0, outcome: outcomes[i] });
                i = i + 1;
                assert(strikes@.subrange(0, n1 as int) =~= first);
            }
            assert forall|j: int| 0 <= j < outcomes.len() implies strikes@.subrange(
                n1 as int,
                strikes.len() as int,
            )[j].outcome == outcomes@[j] by {
                assert(strikes@[n1 + j] == (Strike { attacker: 1, defender: 0, outcome: outcomes@[j] }));
            }
            assert(outcomes_of(strikes@.subrange(n1 as int, strikes.len() as int)) =~= outcomes@);
            assert(strikes@.subrange(0, n1 as int) =~= first);
            roster.push(a);
            roster.push(b);
            proof {
                assert(roster@ =~= seq![a, b]);
                lemma_survivors_of_pair(a, b);
                lemma_survivors_of_pair(
                    Agent { attacks_in_round: 0, ..a },
                    Agent { attacks_in_round: 0, ..b },
                );
            }
            check_dead(&mut roster);
        }
        if roster.len() == 2 {
            let mut b = roster.pop().unwrap();
            let mut a = roster.pop().unwrap();
            a.new_round();
            b.new_round();
            roster.push(a);
            roster.push(b);
            assert(roster@ =~= seq![a, b]);
        } else if roster.len() == 1 {
            let mut a = roster.pop().unwrap();
            a.new_round();
            roster.push(a);
            assert(roster@ =~= seq![a]);
        }
        self.agents = roster;
        proof {
            let sa = start[0];
            let sb = start[1];
            assert(strikes@.subrange(0, n1 as int) =~= first);
            assert(a1.hp == sa.hp && a1.hp > 0);
            assert(n1 == attacks_made(sa.pos, sb.pos, ACTIONS_PER_TURN as nat));
            assert(outcomes_of(first) =~= outs1);
            assert(b1.hp == hp_after_hits(sb.hp, outcomes_of(strikes@.subrange(0, n1 as int))));
            assert forall|i: int| 0 <= i < n1 implies (#[trigger] strikes@[i]).attacker == 0
                && strikes@[i].defender == 1 && outcome_fits(strikes@[i].outcome, i, sa, sb) by {
                assert(strikes@[i] == strikes@.subrange(0, n1 as int)[i]);
                assert(first[i].outcome == outs1[i]);
            }
            if b1.hp <= 0 {
                assert(strikes@ == first);
                assert(self.agents@ =~= seq![Agent { pos: a1.pos, ..sa }]);
            } else {
                assert(a2.hp == hp_after_hits(
                    sa.hp,
                    outcomes_of(strikes@.subrange(n1 as int, strikes.len() as int)),
                ));
                assert(b2.pos == walk(sb.pos, a1.pos, ACTIONS_PER_TURN as nat));
                let n2 = attacks_made(sb.pos, a1.pos, ACTIONS_PER_TURN as nat) as int;
                assert(strikes.len() == n1 + n2);
                assert forall|i: int| n1 <= i < strikes.len() implies (#[trigger] strikes@[i]).attacker
                    == 1 && strikes@[i].defender == 0 && outcome_fits(
                    strikes@[i].outcome,
                    i - n1,
                    sb,
                    sa,
                ) by {
                    assert(strikes@[n1 + (i - n1)].outcome == outs2[i - n1]);
                    assert(outcome_fits(outs2[i - n1], i - n1, b1, a1));
                }
                let fa = Agent { pos: a1.pos, hp: a2.hp, ..sa };
                let fb = Agent { pos: b2.pos, hp: b1.hp, ..sb };
                assert(Agent { attacks_in_round: 0, ..a2 } == fa);
                assert(Agent { attacks_in_round: 0, ..b2 } == fb);
                assert(self.agents@ == survivors(seq![fa, fb]));
            }
            assert(round_played(sa, sb, strikes@, self.agents@));
        }
        strikes
    }
}

/// The attack outcomes of a run of strikes.
pub open spec fn outcomes_of(strikes: Seq<Strike>) -> Seq<AttackOutcome> {
    strikes.map_values(|s: Strike| s.outcome)
}

/// `strikes` and `after` are what one round between `a`, who acts first, and
/// `b` can come to: `a` takes its turn, with as many attacks as
/// `attacks_made` gives; if `b` is still standing it takes its own turn
/// from where `a` left it; each turn's hits come off the defender, the
/// fallen are removed, and the survivors start a new round.
pub open spec fn round_played(a: Agent, b: Agent, strikes: Seq<Strike>, after: Seq<Agent>) -> bool {
    let turns = ACTIONS_PER_TURN as nat;
    let n1 = attacks_made(a.pos, b.pos, turns) as int;
    let a_pos = walk(a.pos, b.pos, turns);
    let b_hp = hp_after_hits(b.hp, outcomes_of(strikes.subrange(0, n1)));
    &&& n1 <= strikes.len()
    &&& forall|i: int|
        0 <= i < n1 ==> {
            &&& (#[trigger] strikes[i]).attacker == 0
            &&& strikes[i].defender == 1
            &&& outcome_fits(strikes[i].outcome, i, a, b)
        }
    &&& b_hp <= 0 ==> {
        &&& strikes.len() == n1
        &&& after == seq![Agent { pos: a_pos, ..a }]
    }
    &&& b_hp > 0 ==> {
        let n2 = attacks_made(b.pos, a_pos, turns) as int;
        let a_hp = hp_after_hits(a.hp, outcomes_of(strikes.subrange(n1, strikes.len() as int)));
        &&& strikes.len() == n1 + n2
        &&& forall|i: int|
            n1 <= i < strikes.len() ==> {
                &&& (#[trigger] strikes[i]).attacker == 1
                &&& strikes[i].defender == 0
                &&& outcome_fits(strikes[i].outcome, i - n1, b, a)
            }
        &&& after == survivors(
            seq![
                Agent { pos: a_pos, hp: a_hp, ..a },
                Agent { pos: walk(b.pos, a_pos, turns), hp: b_hp, ..b },
            ],
        )
    }
}

/// Once within reach an agent stays where it is, and every one of its
/// actions is an attack.
pub proof fn lemma_within_reach_all_attacks(p: Pos, t: Pos, n: nat)
    requires
        within_reach(p, t),
    ensures
        walk(p, t, n) == p,
        attacks_made(p, t, n) == n,
    decreases n,
{
    if n > 0 {
        lemma_within_reach_all_attacks(p, t, (n - 1) as nat);
    }
}

} // verus!
