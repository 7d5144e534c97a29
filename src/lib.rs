//! Dice-and-combat resolution for a two-agent tabletop battle: dice and
//! damage formulas, attack resolution, movement on a plane, and the round
//! loop that drives a battle to its end.

pub mod dice;
pub mod geometry;
pub mod agent;
pub mod battle;

pub use agent::{attacks, Agent, Attack, AttackInRound, AttackOutcome, Stats};
pub use battle::{check_dead, turn_block, Battle, Strike};
pub use dice::{dice, Bonus, ConfigError, Damage, Die, RandomSource, ThreadRandom};
pub use geometry::{Pos, UNIT};
