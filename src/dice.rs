use vstd::prelude::*;

verus! {

/// A source of uniformly distributed 32-bit draws. Every roll of the
/// library takes its randomness from one of these, so that callers can
/// replay a fixed sequence.
pub trait RandomSource {
    fn draw(&mut self) -> u32;
}

/// Relies on rand::random::<T>: it hands back some value of `T` drawn from
/// the thread-local generator; nothing is promised about which.
pub assume_specification<T>[ rand::random::<T> ]() -> (r: T)
    where
        rand::distributions::Standard: rand::distributions::Distribution<T>,
;

/// The process-wide generator of the rand crate.
pub struct ThreadRandom;

impl RandomSource for ThreadRandom {
    fn draw(&mut self) -> u32 {
        rand::random::<u32>()
    }
}

/// The face that a draw selects on a die with `faces` faces: 1 to `faces`.
pub open spec fn face_value(draw: u32, faces: nat) -> int {
    (draw as int % faces as int) + 1
}

/// The total shown by a sequence of draws on dice with `faces` faces.
pub open spec fn sum_faces(draws: Seq<u32>, faces: nat) -> int
    decreases draws.len(),
{
    if draws.len() == 0 {
        0
    } else {
        sum_faces(draws.drop_last(), faces) + face_value(draws.last(), faces)
    }
}

pub proof fn lemma_sum_faces_bounds(draws: Seq<u32>, faces: nat)
    requires
        faces > 0,
    ensures
        draws.len() <= sum_faces(draws, faces) <= draws.len() * faces,
    decreases draws.len(),
{
    if draws.len() > 0 {
        lemma_sum_faces_bounds(draws.drop_last(), faces);
        let n = draws.len() as int;
        assert((n - 1) * faces + faces == n * faces) by (nonlinear_arith);
    }
}

/// A number of dice of one kind; the payload is how many are rolled.
#[derive(Clone, Copy, Debug, PartialEq, Eq, Structural)]
pub enum Die {
    D4(i32),
    D6(i32),
    D8(i32),
    D10(i32),
    D12(i32),
    D20(i32),
}

impl Die {
    pub open spec fn faces_spec(self) -> nat {
        match self {
            Die::D4(_) => 4,
            Die::D6(_) => 6,
            Die::D8(_) => 8,
            Die::D10(_) => 10,
            Die::D12(_) => 12,
            Die::D20(_) => 20,
        }
    }

    pub open spec fn count_spec(self) -> i32 {
        match self {
            Die::D4(n) => n,
            Die::D6(n) => n,
            Die::D8(n) => n,
            Die::D10(n) => n,
            Die::D12(n) => n,
            Die::D20(n) => n,
        }
    }

    /// How many dice are actually rolled: a count below one rolls none.
    pub open spec fn rolls(self) -> nat {
        if self.count_spec() > 0 {
            self.count_spec() as nat
        } else {
            0
        }
    }

    /// The largest possible total.
    pub open spec fn max_total(self) -> int {
        (self.rolls() * self.faces_spec()) as int
    }

    pub fn faces(&self) -> (r: u32)
        ensures
            r == self.faces_spec(),
    {
        match self {
            Die::D4(_) => 4,
            Die::D6(_) => 6,
            Die::D8(_) => 8,
            Die::D10(_) => 10,
            Die::D12(_) => 12,
            Die::D20(_) => 20,
        }
    }

    pub fn count(&self) -> (r: i32)
        ensures
            r == self.count_spec(),
    {
        match self {
            Die::D4(n) => *n,
            Die::D6(n) => *n,
            Die::D8(n) => *n,
            Die::D10(n) => *n,
            Die::D12(n) => *n,
            Die::D20(n) => *n,
        }
    }

    /// The total of this roll when the dice show the faces that `draws`
    /// select, one draw per die.
    pub fn total_from(&self, draws: &Vec<u32>) -> (r: i32)
        requires
            self.max_total() <= i32::MAX,
            draws.len() == self.rolls(),
        ensures
            r == sum_faces(draws@, self.faces_spec()),
    {
        let faces = self.faces();
        let mut total: i32 = 0;
        let mut i: usize = 0;
        while i < draws.len()
            invariant
                faces == self.faces_spec(),
                draws.len() == self.rolls(),
                self.max_total() <= i32::MAX,
                0 <= i <= draws.len(),
                total == sum_faces(draws@.take(i as int), faces as nat),
            decreases draws.len() - i,
        {
            proof {
                let prefix = draws@.take(i as int + 1);
                assert(prefix.drop_last() =~= draws@.take(i as int));
                lemma_sum_faces_bounds(prefix, faces as nat);
                let n = self.rolls() as int;
                let f = faces as int;
                assert((i as int + 1) * f <= n * f) by (nonlinear_arith)
                    requires
                        i as int + 1 <= n,
                        f > 0,
                ;
            }
            total = total + ((draws[i] % faces) + 1) as i32;
            i = i + 1;
        }
        assert(draws@.take(i as int) =~= draws@);
        total
    }

    /// Rolls the dice: `rolls()` draws from `rng`, each selecting a face.
    pub fn roll<R: RandomSource>(&self, rng: &mut R) -> (r: i32)
        requires
            self.max_total() <= i32::MAX,
        ensures
            self.rolls() <= r <= self.max_total(),
            exists|draws: Seq<u32>|
                draws.len() == self.rolls() && r == sum_faces(draws, self.faces_spec()),
    {
        let n = self.count();
        let mut draws: Vec<u32> = Vec::new();
        let mut i: i32 = 0;
        while i < n
            invariant
                n == self.count_spec(),
                0 <= i,
                n > 0 ==> i <= n,
                n <= 0 ==> i == 0,
                draws.len() == i,
            decreases n - i,
        {
            draws.push(rng.draw());
            i = i + 1;
        }
        assert(draws.len() == self.rolls());
        let r = self.total_from(&draws);
        proof {
            lemma_sum_faces_bounds(draws@, self.faces_spec());
        }
        r
    }
}

/// A flat modifier, added as it stands.
#[derive(Clone, Copy, Debug, PartialEq, Eq, Structural)]
pub struct Bonus(pub i32);

impl Bonus {
    pub fn roll(&self) -> (r: i32)
        ensures
            r == self.0,
    {
        self.0
    }
}

/// A damage formula: some dice plus a flat bonus.
#[derive(Clone, Copy, Debug, PartialEq, Eq, Structural)]
pub struct Damage(pub Die, pub Bonus);

impl Damage {
    /// The dice's total, and every total of the formula, fit in an `i32`.
    pub open spec fn fits(self) -> bool {
        &&& self.0.max_total() <= i32::MAX
        &&& self.0.max_total() + self.1.0 <= i32::MAX
    }

    /// The total when the dice show the faces that `draws` select: the dice's
    /// total plus the bonus, which may drive it below zero.
    pub fn total_from(&self, draws: &Vec<u32>) -> (r: i32)
        requires
            self.fits(),
            draws.len() == self.0.rolls(),
        ensures
            r == sum_faces(draws@, self.0.faces_spec()) + self.1.0,
    {
        let dice = self.0.total_from(draws);
        proof {
            lemma_sum_faces_bounds(draws@, self.0.faces_spec());
        }
        dice + self.1.roll()
    }

    /// Rolls the formula with draws taken from `rng`.
    pub fn roll<R: RandomSource>(&self, rng: &mut R) -> (r: i32)
        requires
            self.fits(),
        ensures
            self.0.rolls() + self.1.0 <= r <= self.0.max_total() + self.1.0,
            exists|draws: Seq<u32>|
                draws.len() == self.0.rolls() && r == sum_faces(draws, self.0.faces_spec())
                    + self.1.0,
    {
        let n = self.0.count();
        let mut draws: Vec<u32> = Vec::new();
        let mut i: i32 = 0;
        while i < n
            invariant
                n == self.0.count_spec(),
                0 <= i,
                n > 0 ==> i <= n,
                n <= 0 ==> i == 0,
                draws.len() == i,
            decreases n - i,
        {
            draws.push(rng.draw());
            i = i + 1;
        }
        assert(draws.len() == self.0.rolls());
        let r = self.total_from(&draws);
        proof {
            lemma_sum_faces_bounds(draws@, self.0.faces_spec());
        }
        r
    }
}

/// Why a damage formula was refused.
#[derive(Clone, Copy, Debug, PartialEq, Eq, Structural)]
pub enum ConfigError {
    /// No die has that many faces (there are d4, d6, d8, d10, d12 and d20).
    UnsupportedFaces,
    /// A negative number of dice.
    NegativeCount,
    /// The largest total would not fit in an `i32`.
    TooLarge,
}

pub open spec fn supported_faces(faces: u32) -> bool {
    faces == 4 || faces == 6 || faces == 8 || faces == 10 || faces == 12 || faces == 20
}

/// Builds the formula `count` d`faces` + `bonus`.
pub fn dice(count: i32, faces: u32, bonus: i32) -> (r: Result<Damage, ConfigError>)
    ensures
        !supported_faces(faces) <==> r == Err::<Damage, ConfigError>(ConfigError::UnsupportedFaces),
        supported_faces(faces) && count < 0 <==> r == Err::<Damage, ConfigError>(
            ConfigError::NegativeCount,
        ),
        supported_faces(faces) && count >= 0 && (count * faces > i32::MAX || count * faces + bonus
            > i32::MAX) <==> r == Err::<
            Damage,
            ConfigError,
        >(ConfigError::TooLarge),
        r is Ok <==> supported_faces(faces) && count >= 0 && count * faces <= i32::MAX && count
            * faces + bonus <= i32::MAX,
        r matches Ok(d) ==> d.0.faces_spec() == faces && d.0.count_spec() == count && d.1.0
            == bonus && d.fits(),
{
    let die = if faces == 4 {
        Die::D4(count)
    } else if faces == 6 {
        Die::D6(count)
    } else if faces == 8 {
        Die::D8(count)
    } else if faces == 10 {
        Die::D10(count)
    } else if faces == 12 {
        Die::D12(count)
    } else if faces == 20 {
        Die::D20(count)
    } else {
        return Err(ConfigError::UnsupportedFaces);
    };
    if count < 0 {
        return Err(ConfigError::NegativeCount);
    }
    assert(0 <= count as i64 * faces as i64 <= 20 * 0x8000_0000i64) by (nonlinear_arith)
        requires
            0 <= count,
            faces <= 20,
    ;
    let dice_max: i64 = count as i64 * faces as i64;
    if dice_max > i32::MAX as i64 || dice_max + bonus as i64 > i32::MAX as i64 {
        return Err(ConfigError::TooLarge);
    }
    Ok(Damage(die, Bonus(bonus)))
}

} // verus!
