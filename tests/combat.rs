use battle_sim::{
    attacks, check_dead, dice, Agent, Attack, AttackOutcome, Battle, Pos, RandomSource, Stats, Strike, UNIT,
};

struct Replay {
    draws: Vec<u32>,
    next: usize,
}

impl RandomSource for Replay {
    fn draw(&mut self) -> u32 {
        let d = self.draws[self.next % self.draws.len()];
        self.next += 1;
        d
    }
}

/// A linear congruential generator: a fixed seed gives a fixed battle.
struct Seeded(u64);

impl RandomSource for Seeded {
    fn draw(&mut self) -> u32 {
        self.0 = self.0.wrapping_mul(6364136223846793005).wrapping_add(1442695040888963407);
        (self.0 >> 33) as u32
    }
}

fn bandit_stats() -> Stats {
    Stats { attacks: attacks(0, -5, -10), damage: dice(1, 6, 1).unwrap(), ac: 10 }
}

fn monk_stats() -> Stats {
    Stats { attacks: attacks(0, -4, -8), damage: dice(1, 4, 1).unwrap(), ac: 14 }
}

fn agent(name: &str, x: i64, y: i64, stats: Stats, hp: i32) -> Agent {
    Agent { name: name.to_string(), pos: Pos::new(x, y), stats, attacks_in_round: 0, hp }
}

fn dist_sq(a: &Agent, b: &Agent) -> i128 {
    let dx = (a.pos.x - b.pos.x) as i128;
    let dy = (a.pos.y - b.pos.y) as i128;
    dx * dx + dy * dy
}

#[test]
fn new_agent_has_fifty_hp_and_no_name() {
    let a = Agent::new(Pos::new(3, 4), bandit_stats());
    assert_eq!(a.name, "");
    assert_eq!(a.hp, 50);
    assert_eq!(a.attacks_in_round, 0);
    assert_eq!(a.pos, Pos::new(3, 4));
    assert_eq!(a.stats, bandit_stats());
}

#[test]
fn in_range_below_one_hundred_units_and_symmetric() {
    let a = agent("a", 0, 0, bandit_stats(), 10);
    let near = agent("b", 99_999, 0, monk_stats(), 10);
    let edge = agent("c", 100 * UNIT, 0, monk_stats(), 10);
    let diag = agent("d", 60_000, 80_000, monk_stats(), 10);
    assert!(a.in_range(&near) && near.in_range(&a));
    assert!(!a.in_range(&edge) && !edge.in_range(&a));
    assert!(!a.in_range(&diag) && !diag.in_range(&a));
    let diag_in = agent("e", 60_000, 79_999, monk_stats(), 10);
    assert!(a.in_range(&diag_in) && diag_in.in_range(&a));
}

#[test]
fn move_towards_takes_one_unit_along_the_line() {
    let mut a = agent("a", 0, 0, bandit_stats(), 10);
    let b = agent("b", 300_000, 400_000, monk_stats(), 10);
    a.move_towards(&b);
    assert_eq!(a.pos, Pos::new(600, 800));
    let mut c = agent("c", 5_000, -2_000, bandit_stats(), 10);
    let d = agent("d", -195_000, -2_000, monk_stats(), 10);
    c.move_towards(&d);
    assert_eq!(c.pos, Pos::new(4_000, -2_000));
}

#[test]
fn move_towards_strictly_closes_the_distance() {
    let b = agent("b", 412_000, -412_000, monk_stats(), 10);
    let mut a = agent("a", -412_000, 412_000, bandit_stats(), 10);
    for _ in 0..100 {
        let before = dist_sq(&a, &b);
        let start = a.pos;
        a.move_towards(&b);
        assert!(dist_sq(&a, &b) < before);
        let dx = (a.pos.x - start.x) as i128;
        let dy = (a.pos.y - start.y) as i128;
        assert!(dx * dx + dy * dy <= (UNIT as i128) * (UNIT as i128));
        assert!(dx * dx + dy * dy >= ((UNIT - 2) as i128) * ((UNIT - 2) as i128));
        let closed = (before as f64).sqrt() - (dist_sq(&a, &b) as f64).sqrt();
        assert!(closed > (UNIT - 3) as f64 && closed < (UNIT + 1) as f64);
    }
}

#[test]
fn move_towards_same_point_is_a_no_op() {
    let mut a = agent("a", 1_234, -5_678, bandit_stats(), 10);
    let b = agent("b", 1_234, -5_678, monk_stats(), 10);
    a.move_towards(&b);
    assert_eq!(a.pos, Pos::new(1_234, -5_678));
    assert_eq!(a.hp, 10);
    assert_eq!(a.attacks_in_round, 0);
}

#[test]
fn move_towards_within_one_unit_steps_past_the_target() {
    let mut a = agent("a", 0, 0, bandit_stats(), 10);
    let b = agent("b", 300, 400, monk_stats(), 10);
    a.move_towards(&b);
    assert_eq!(a.pos, Pos::new(600, 800));
    let mut c = agent("c", 0, 0, bandit_stats(), 10);
    let d = agent("d", 500, 0, monk_stats(), 10);
    c.move_towards(&d);
    assert_eq!(c.pos, Pos::new(1000, 0));
}

#[test]
fn hit_reports_its_place_in_the_round() {
    let stats = Stats {
        attacks: (Attack::Three(0), Attack::Two(0), Attack::One(0)),
        damage: dice(1, 6, 1).unwrap(),
        ac: 10,
    };
    let mut a = agent("a", 0, 0, stats, 50);
    let mut b = agent("b", 0, 0, monk_stats(), 30);
    let r = a.attack_with(&mut b, 19, &vec![0]);
    assert_eq!(r, AttackOutcome::Hit { ordinal: 1, damage: 2 });
}

#[test]
fn certain_hit_and_certain_miss() {
    let mut a = agent("a", 0, 0, bandit_stats(), 50);
    let mut easy = agent("b", 0, 0, Stats { ac: 1, ..monk_stats() }, 1_000);
    let mut hard = agent("c", 0, 0, Stats { ac: 21, ..monk_stats() }, 1_000);
    let mut rng = Seeded(99);
    for _ in 0..20 {
        a.new_round();
        assert!(matches!(a.attack(&mut easy, &mut rng), AttackOutcome::Hit { .. }));
        a.new_round();
        assert!(matches!(a.attack(&mut hard, &mut rng), AttackOutcome::Miss { .. }));
    }
}

#[test]
fn round_out_of_reach_is_pure_movement() {
    let mut battle = Battle::new(
        agent("a", 0, 0, bandit_stats(), 50),
        agent("b", 200_000, 0, monk_stats(), 30),
    );
    let mut rng = Seeded(3);
    let strikes = battle.step(&mut rng);
    assert!(strikes.is_empty());
    assert_eq!(battle.agents[0].pos, Pos::new(3_000, 0));
    assert_eq!(battle.agents[1].pos, Pos::new(197_000, 0));
    assert_eq!((battle.agents[0].hp, battle.agents[1].hp), (50, 30));
}

#[test]
fn round_within_reach_is_three_attacks_each() {
    let mut battle = Battle::new(
        agent("a", 0, 0, bandit_stats(), 50),
        agent("b", 10_000, 0, monk_stats(), 30),
    );
    // The d20 always shows 1: every attack misses.
    let mut rng = Replay { draws: vec![0], next: 0 };
    let strikes = battle.step(&mut rng);
    let who: Vec<(usize, usize)> = strikes.iter().map(|s| (s.attacker, s.defender)).collect();
    assert_eq!(who, vec![(0, 1), (0, 1), (0, 1), (1, 0), (1, 0), (1, 0)]);
    assert_eq!(strikes[3].outcome, AttackOutcome::Miss { ordinal: 1 });
    assert_eq!(battle.agents[0].pos, Pos::new(0, 0));
    assert_eq!(battle.agents[1].pos, Pos::new(10_000, 0));
    assert_eq!((battle.agents[0].hp, battle.agents[1].hp), (50, 30));
}

#[test]
fn attack_hit_takes_damage_and_advances() {
    let mut a = agent("a", 0, 0, bandit_stats(), 50);
    let mut b = agent("b", 0, 0, monk_stats(), 30);
    // d20 shows 14 + 0 >= 14; the d6 shows 5, plus 1.
    let r = a.attack_with(&mut b, 13, &vec![4]);
    assert_eq!(r, AttackOutcome::Hit { ordinal: 1, damage: 6 });
    assert_eq!(b.hp, 24);
    assert_eq!(a.attacks_in_round, 1);
    assert_eq!(a.hp, 50);
}

#[test]
fn attack_miss_changes_only_the_attack_index() {
    let mut a = agent("a", 0, 0, bandit_stats(), 50);
    let mut b = agent("b", 0, 0, monk_stats(), 30);
    a.attacks_in_round = 1;
    // d20 shows 17, second attack -5: 12 < 14.
    let r = a.attack_with(&mut b, 16, &vec![]);
    assert_eq!(r, AttackOutcome::Miss { ordinal: 2 });
    assert_eq!(b.hp, 30);
    assert_eq!(a.attacks_in_round, 2);
}

#[test]
fn attack_always_advances_by_one() {
    let mut a = agent("a", 0, 0, bandit_stats(), 50);
    let mut b = agent("b", 0, 0, monk_stats(), 1_000);
    let mut rng = Seeded(7);
    for k in 0..10 {
        let hp = b.hp;
        let r = a.attack(&mut b, &mut rng);
        assert_eq!(a.attacks_in_round, k + 1);
        match r {
            AttackOutcome::Hit { damage, .. } => {
                assert!((2..=7).contains(&damage));
                assert_eq!(b.hp, hp - damage);
            }
            AttackOutcome::Miss { .. } => assert_eq!(b.hp, hp),
        }
    }
}

#[test]
fn fourth_attack_uses_third_slot_until_new_round() {
    let mut a = agent("a", 0, 0, bandit_stats(), 50);
    let mut b = agent("b", 0, 0, monk_stats(), 1_000);
    let mut rng = Replay { draws: vec![0], next: 0 };
    let ordinals: Vec<u32> = (0..4)
        .map(|_| match a.attack(&mut b, &mut rng) {
            AttackOutcome::Hit { ordinal, .. } | AttackOutcome::Miss { ordinal } => ordinal,
        })
        .collect();
    assert_eq!(ordinals, vec![1, 2, 3, 3]);
    a.new_round();
    assert_eq!(a.attacks_in_round, 0);
    let next = a.attack(&mut b, &mut rng);
    assert_eq!(next, AttackOutcome::Miss { ordinal: 1 });
}

#[test]
fn new_round_at_zero_is_a_no_op() {
    let mut a = agent("a", 5, 6, bandit_stats(), 17);
    a.new_round();
    assert_eq!(a.attacks_in_round, 0);
    assert_eq!(a.hp, 17);
    assert_eq!(a.pos, Pos::new(5, 6));
    assert_eq!(a.name, "a");
    a.new_round();
    assert_eq!(a.attacks_in_round, 0);
}

#[test]
fn hp_goes_negative_without_clamping() {
    let mut a = agent("a", 0, 0, bandit_stats(), 50);
    let mut b = agent("b", 0, 0, monk_stats(), 3);
    let r = a.attack_with(&mut b, 19, &vec![5]);
    assert_eq!(r, AttackOutcome::Hit { ordinal: 1, damage: 7 });
    assert_eq!(b.hp, -4);
}

#[test]
fn check_dead_keeps_survivors_in_order() {
    let mut roster = vec![
        agent("a", 0, 0, bandit_stats(), 5),
        agent("b", 0, 0, monk_stats(), 0),
        agent("c", 0, 0, monk_stats(), 1),
        agent("d", 0, 0, monk_stats(), -3),
        agent("e", 0, 0, monk_stats(), 9),
    ];
    check_dead(&mut roster);
    let names: Vec<&str> = roster.iter().map(|a| a.name.as_str()).collect();
    assert_eq!(names, vec!["a", "c", "e"]);
    let mut empty: Vec<Agent> = vec![];
    check_dead(&mut empty);
    assert!(empty.is_empty());
}

#[test]
fn battle_new_drops_fallen_and_resets() {
    let mut first = agent("a", 0, 0, bandit_stats(), 5);
    first.attacks_in_round = 2;
    let battle = Battle::new(first, agent("b", 0, 0, monk_stats(), 0));
    assert!(battle.is_over());
    assert_eq!(battle.agents.len(), 1);
    assert_eq!(battle.agents[0].attacks_in_round, 0);
    assert_eq!(battle.winner().map(|a| a.name.as_str()), Some("a"));
}

#[test]
fn battle_over_stays_put() {
    let mut battle = Battle::new(agent("a", 0, 0, bandit_stats(), 5), agent("b", 0, 0, monk_stats(), -1));
    let mut rng = Seeded(1);
    let strikes = battle.step(&mut rng);
    assert!(strikes.is_empty());
    assert_eq!(battle.agents.len(), 1);
    assert_eq!(battle.agents[0].hp, 5);
}

#[test]
fn killed_second_agent_does_not_act() {
    // The d20 always shows 20 and the d4/d6 always show their top face.
    let mut rng = Replay { draws: vec![19, 5], next: 0 };
    let mut battle = Battle::new(
        agent("a", 0, 0, bandit_stats(), 50),
        agent("b", 0, 0, monk_stats(), 7),
    );
    let strikes = battle.step(&mut rng);
    assert_eq!(strikes.len(), 3);
    assert_eq!(strikes[0], Strike { attacker: 0, defender: 1, outcome: AttackOutcome::Hit { ordinal: 1, damage: 7 } });
    assert!(strikes.iter().all(|s| s.attacker == 0));
    assert!(battle.is_over());
    assert_eq!(battle.winner().map(|a| a.name.as_str()), Some("a"));
    assert_eq!(battle.agents[0].attacks_in_round, 0);
}

#[test]
fn bandit_and_monk_close_in_then_fight_to_the_end() {
    let mut battle = Battle::new(
        agent("Bandit", -412_000, 412_000, bandit_stats(), 50),
        agent("Monk", 412_000, -412_000, monk_stats(), 30),
    );
    let mut rng = Seeded(2024);
    let mut rounds = 0;
    let mut moving = true;
    let mut first_strike_round = None;
    while !battle.is_over() && rounds < 10_000 {
        let before = dist_sq(&battle.agents[0], &battle.agents[1]);
        let hps = (battle.agents[0].hp, battle.agents[1].hp);
        let strikes = battle.step(&mut rng);
        rounds += 1;
        if moving {
            if strikes.is_empty() {
                assert_eq!((battle.agents[0].hp, battle.agents[1].hp), hps);
                assert!(dist_sq(&battle.agents[0], &battle.agents[1]) < before);
            } else {
                moving = false;
                first_strike_round = Some(rounds);
                assert!(before < 130_000i128 * 130_000);
            }
        }
    }
    assert!(battle.is_over());
    let start = first_strike_round.unwrap();
    assert!(start > 100);
    assert_eq!(battle.agents.len(), 1);
    assert!(battle.agents[0].hp > 0);
    assert!(battle.winner().is_some());
}
