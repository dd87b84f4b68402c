//! Difficulty: a vector of five non-negative multipliers that scale spawn and
//! combat numbers. Multipliers are exact fractions, so that composing
//! difficulties loses nothing and the order of composition never matters.

use vstd::prelude::*;
use vstd::arithmetic::mul::*;
use core::ops::Mul;
use vstd::std_specs::ops::MulSpecImpl;

verus! {

/// The mathematical value of a multiplier: the fraction `num / den`.
pub struct Rational {
    pub num: nat,
    pub den: nat,
}

impl Rational {
    /// The product of two fractions, numerator by numerator and denominator
    /// by denominator.
    pub open spec fn times(self, other: Rational) -> Rational {
        Rational { num: self.num * other.num, den: self.den * other.den }
    }

    /// Whether both parts can be held by a `Factor`.
    pub open spec fn fits(self) -> bool {
        self.num <= u32::MAX && self.den <= u32::MAX
    }

    /// `value` scaled by the fraction and rounded down, capped at `u32::MAX`.
    pub open spec fn scale(self, value: nat) -> nat
        recommends
            self.den > 0,
    {
        let exact = (value * self.num) / self.den;
        if exact > u32::MAX {
            u32::MAX as nat
        } else {
            exact
        }
    }

    /// The fraction in whole hundredths, rounded down.
    pub open spec fn hundredths(self) -> nat
        recommends
            self.den > 0,
    {
        (self.num * 100) / self.den
    }
}

/// A non-negative multiplier, held as the fraction `num / den`.
#[derive(Debug, Clone, Copy, PartialEq, Eq, Hash, Structural)]
pub struct Factor {
    pub num: u32,
    pub den: u32,
}

impl View for Factor {
    type V = Rational;

    open spec fn view(&self) -> Rational {
        Rational { num: self.num as nat, den: self.den as nat }
    }
}

impl Factor {
    /// A factor is well formed when its denominator is not zero.
    pub open spec fn wf(self) -> bool {
        self.den > 0
    }

    /// A factor is plain when it is well formed and both parts are below
    /// `2^16`; the product of two plain factors always fits.
    pub open spec fn plain(self) -> bool {
        self.wf() && self.num <= 0xffff && self.den <= 0xffff
    }

    /// Whether the factor is plain.
    pub fn is_plain(self) -> (r: bool)
        ensures
            r == self.plain(),
    {
        self.den > 0 && self.num <= 0xffff && self.den <= 0xffff
    }

    /// The factor `hundredths / 100`.
    pub fn percent(hundredths: u32) -> (r: Factor)
        ensures
            r == (Factor { num: hundredths, den: 100 }),
            r.wf(),
    {
        Factor { num: hundredths, den: 100 }
    }

    /// The product of two factors, each part taken modulo `2^32`. Where
    /// both products fit, nothing is cut off, and the product is the
    /// product of the fractions.
    pub open spec fn spec_times(self, other: Factor) -> Factor {
        Factor {
            num: ((self.num * other.num) % 0x1_0000_0000) as u32,
            den: ((self.den * other.den) % 0x1_0000_0000) as u32,
        }
    }

    /// The product of two factors: see `spec_times`.
    pub fn times(self, other: Factor) -> (r: Factor)
        ensures
            r == self.spec_times(other),
            self@.times(other@).fits() ==> r@ == self@.times(other@),
            self@.times(other@).fits() && self.wf() && other.wf() ==> r.wf(),
    {
        proof {
            lemma_mul_nonnegative(self.num as int, other.num as int);
            lemma_mul_nonnegative(self.den as int, other.den as int);
            if self@.times(other@).fits() {
                vstd::arithmetic::div_mod::lemma_small_mod((self.num * other.num) as nat, 0x1_0000_0000);
                vstd::arithmetic::div_mod::lemma_small_mod((self.den * other.den) as nat, 0x1_0000_0000);
                if self.wf() && other.wf() {
                    lemma_mul_strictly_positive(self.den as int, other.den as int);
                }
            }
        }
        Factor { num: self.num.wrapping_mul(other.num), den: self.den.wrapping_mul(other.den) }
    }

    /// Scales `value` by the factor, rounding down and capping the result at
    /// `u32::MAX`.
    pub fn scale(self, value: u32) -> (r: u32)
        requires
            self.wf(),
        ensures
            r == self@.scale(value as nat),
    {
        proof {
            lemma_mul_upper_bound(value as int, 0xffff_ffff, self.num as int, 0xffff_ffff);
        }
        let wide: u64 = (value as u64) * (self.num as u64);
        let exact: u64 = wide / (self.den as u64);
        if exact > 0xffff_ffff {
            0xffff_ffff
        } else {
            exact as u32
        }
    }

    /// The factor in whole hundredths, rounded down.
    pub fn hundredths(self) -> (r: u64)
        requires
            self.wf(),
        ensures
            r == self@.hundredths(),
    {
        (self.num as u64) * 100 / (self.den as u64)
    }
}

/// The mathematical value of a difficulty: five fractions.
pub struct DifficultyView {
    pub food_mul: Rational,
    pub food_food_mul: Rational,
    pub enemy_mul: Rational,
    pub enemy_health_mul: Rational,
    pub enemy_damage_mul: Rational,
}

impl DifficultyView {
    /// Two difficulties compose by multiplying multiplier with multiplier.
    pub open spec fn compose(self, other: DifficultyView) -> DifficultyView {
        DifficultyView {
            food_mul: self.food_mul.times(other.food_mul),
            food_food_mul: self.food_food_mul.times(other.food_food_mul),
            enemy_mul: self.enemy_mul.times(other.enemy_mul),
            enemy_health_mul: self.enemy_health_mul.times(other.enemy_health_mul),
            enemy_damage_mul: self.enemy_damage_mul.times(other.enemy_damage_mul),
        }
    }

    /// Whether every multiplier can be held by a `Factor`.
    pub open spec fn fits(self) -> bool {
        &&& self.food_mul.fits()
        &&& self.food_food_mul.fits()
        &&& self.enemy_mul.fits()
        &&& self.enemy_health_mul.fits()
        &&& self.enemy_damage_mul.fits()
    }

    /// The neutral difficulty: every multiplier is one.
    pub open spec fn one() -> DifficultyView {
        let unit = Rational { num: 1, den: 1 };
        DifficultyView {
            food_mul: unit,
            food_food_mul: unit,
            enemy_mul: unit,
            enemy_health_mul: unit,
            enemy_damage_mul: unit,
        }
    }
}

/// The multipliers that a sector or a player-selected level applies to
/// spawning and combat.
#[derive(Debug, Clone, Copy, PartialEq, Eq, Hash, Structural)]
pub struct Difficulty {
    /// Scales how likely food is to spawn.
    pub food_mul: Factor,
    /// Scales how much a spawned food yields.
    pub food_food_mul: Factor,
    /// Scales how likely an enemy is to spawn.
    pub enemy_mul: Factor,
    /// Scales the health of a spawned enemy.
    pub enemy_health_mul: Factor,
    /// Scales the damage of a spawned enemy.
    pub enemy_damage_mul: Factor,
}

impl View for Difficulty {
    type V = DifficultyView;

    open spec fn view(&self) -> DifficultyView {
        DifficultyView {
            food_mul: self.food_mul@,
            food_food_mul: self.food_food_mul@,
            enemy_mul: self.enemy_mul@,
            enemy_health_mul: self.enemy_health_mul@,
            enemy_damage_mul: self.enemy_damage_mul@,
        }
    }
}

/// The key under which a difficulty is cached: every multiplier in whole
/// hundredths, rounded down.
#[derive(Debug, Clone, Copy, PartialEq, Eq, Hash, Structural)]
pub struct DifficultyKey {
    pub food_mul: u64,
    pub food_food_mul: u64,
    pub enemy_mul: u64,
    pub enemy_health_mul: u64,
    pub enemy_damage_mul: u64,
}

impl Difficulty {
    /// Every multiplier has a denominator other than zero.
    pub open spec fn wf(self) -> bool {
        &&& self.food_mul.wf()
        &&& self.food_food_mul.wf()
        &&& self.enemy_mul.wf()
        &&& self.enemy_health_mul.wf()
        &&& self.enemy_damage_mul.wf()
    }

    /// Every multiplier is plain, so that composing with another plain
    /// difficulty cannot overflow.
    pub open spec fn plain(self) -> bool {
        &&& self.food_mul.plain()
        &&& self.food_food_mul.plain()
        &&& self.enemy_mul.plain()
        &&& self.enemy_health_mul.plain()
        &&& self.enemy_damage_mul.plain()
    }

    /// Whether every multiplier is plain.
    pub fn is_plain(self) -> (r: bool)
        ensures
            r == self.plain(),
    {
        self.food_mul.is_plain() && self.food_food_mul.is_plain() && self.enemy_mul.is_plain()
            && self.enemy_health_mul.is_plain() && self.enemy_damage_mul.is_plain()
    }

    /// Replaces the food spawn multiplier.
    pub fn food_mul(self, food_mul: Factor) -> (r: Difficulty)
        ensures
            r == (Difficulty { food_mul, ..self }),
    {
        let mut r = self;
        r.food_mul = food_mul;
        r
    }

    /// Replaces the food yield multiplier.
    pub fn food_food_mul(self, food_food_mul: Factor) -> (r: Difficulty)
        ensures
            r == (Difficulty { food_food_mul, ..self }),
    {
        let mut r = self;
        r.food_food_mul = food_food_mul;
        r
    }

    /// Replaces the enemy spawn multiplier.
    pub fn enemy_mul(self, enemy_mul: Factor) -> (r: Difficulty)
        ensures
            r == (Difficulty { enemy_mul, ..self }),
    {
        let mut r = self;
        r.enemy_mul = enemy_mul;
        r
    }

    /// Replaces the enemy health multiplier.
    pub fn enemy_health_mul(self, enemy_health_mul: Factor) -> (r: Difficulty)
        ensures
            r == (Difficulty { enemy_health_mul, ..self }),
    {
        let mut r = self;
        r.enemy_health_mul = enemy_health_mul;
        r
    }

    /// Replaces the enemy damage multiplier.
    pub fn enemy_damage_mul(self, enemy_damage_mul: Factor) -> (r: Difficulty)
        ensures
            r == (Difficulty { enemy_damage_mul, ..self }),
    {
        let mut r = self;
        r.enemy_damage_mul = enemy_damage_mul;
        r
    }

    /// What `self * other` is: the product multiplier by multiplier, each
    /// part taken modulo `2^32`.
    pub open spec fn composed(self, other: Difficulty) -> Difficulty {
        Difficulty {
            food_mul: self.food_mul.spec_times(other.food_mul),
            food_food_mul: self.food_food_mul.spec_times(other.food_food_mul),
            enemy_mul: self.enemy_mul.spec_times(other.enemy_mul),
            enemy_health_mul: self.enemy_health_mul.spec_times(other.enemy_health_mul),
            enemy_damage_mul: self.enemy_damage_mul.spec_times(other.enemy_damage_mul),
        }
    }

    /// The difficulty whose multipliers are all `1 / 1`.
    pub open spec fn unit() -> Difficulty {
        let one = Factor { num: 1, den: 1 };
        Difficulty {
            food_mul: one,
            food_food_mul: one,
            enemy_mul: one,
            enemy_health_mul: one,
            enemy_damage_mul: one,
        }
    }

    /// The difficulty whose multipliers are given in hundredths.
    pub open spec fn of_percents(food: u32, yield_: u32, enemy: u32, health: u32, damage: u32)
        -> Difficulty {
        Difficulty {
            food_mul: Factor { num: food, den: 100 },
            food_food_mul: Factor { num: yield_, den: 100 },
            enemy_mul: Factor { num: enemy, den: 100 },
            enemy_health_mul: Factor { num: health, den: 100 },
            enemy_damage_mul: Factor { num: damage, den: 100 },
        }
    }

    /// More and richer food, fewer and weaker enemies.
    pub fn easy() -> (r: Difficulty)
        ensures
            r == Difficulty::of_percents(150, 120, 75, 80, 75),
            r.plain(),
    {
        Difficulty::new()
            .food_mul(Factor::percent(150))
            .food_food_mul(Factor::percent(120))
            .enemy_mul(Factor::percent(75))
            .enemy_health_mul(Factor::percent(80))
            .enemy_damage_mul(Factor::percent(75))
    }

    /// The neutral difficulty.
    pub fn normal() -> (r: Difficulty)
        ensures
            r == Difficulty::of_percents(100, 100, 100, 100, 100),
            r.plain(),
    {
        Difficulty::new()
    }

    /// Less and poorer food, more and stronger enemies.
    pub fn hard() -> (r: Difficulty)
        ensures
            r == Difficulty::of_percents(75, 80, 150, 150, 200),
            r.plain(),
    {
        Difficulty::new()
            .food_mul(Factor::percent(75))
            .food_food_mul(Factor::percent(80))
            .enemy_mul(Factor::percent(150))
            .enemy_health_mul(Factor::percent(150))
            .enemy_damage_mul(Factor::percent(200))
    }

    /// The difficulty of a zone where nothing grows and nothing hunts: every
    /// multiplier is zero.
    pub fn none() -> (r: Difficulty)
        ensures
            r == Difficulty::of_percents(0, 0, 0, 0, 0),
            r.plain(),
    {
        Difficulty::new()
            .food_mul(Factor::percent(0))
            .food_food_mul(Factor::percent(0))
            .enemy_mul(Factor::percent(0))
            .enemy_health_mul(Factor::percent(0))
            .enemy_damage_mul(Factor::percent(0))
    }

    /// Every multiplier is one.
    pub fn new() -> (r: Difficulty)
        ensures
            r == Difficulty::of_percents(100, 100, 100, 100, 100),
            r.plain(),
    {
        Difficulty {
            food_mul: Factor::percent(100),
            food_food_mul: Factor::percent(100),
            enemy_mul: Factor::percent(100),
            enemy_health_mul: Factor::percent(100),
            enemy_damage_mul: Factor::percent(100),
        }
    }

    /// The level that a name stands for: `easy`, `normal` or `hard`.
    pub open spec fn spec_named(name: Seq<char>) -> Option<Difficulty> {
        if name == "easy"@ {
            Some(Difficulty::of_percents(150, 120, 75, 80, 75))
        } else if name == "normal"@ {
            Some(Difficulty::of_percents(100, 100, 100, 100, 100))
        } else if name == "hard"@ {
            Some(Difficulty::of_percents(75, 80, 150, 150, 200))
        } else {
            None
        }
    }

    /// The level that a name stands for: `easy`, `normal` or `hard`.
    pub fn named(name: &str) -> (r: Option<Difficulty>)
        ensures
            r == Difficulty::spec_named(name@),
            r matches Some(d) ==> d.plain(),
    {
        let owned = name.to_owned();
        if owned == "easy".to_owned() {
            Some(Difficulty::easy())
        } else if owned == "normal".to_owned() {
            Some(Difficulty::normal())
        } else if owned == "hard".to_owned() {
            Some(Difficulty::hard())
        } else {
            None
        }
    }

    /// The cache key of the difficulty: two difficulties whose multipliers
    /// agree in whole hundredths have the same key.
    pub fn quantized(self) -> (r: DifficultyKey)
        requires
            self.wf(),
        ensures
            r.food_mul == self@.food_mul.hundredths(),
            r.food_food_mul == self@.food_food_mul.hundredths(),
            r.enemy_mul == self@.enemy_mul.hundredths(),
            r.enemy_health_mul == self@.enemy_health_mul.hundredths(),
            r.enemy_damage_mul == self@.enemy_damage_mul.hundredths(),
    {
        DifficultyKey {
            food_mul: self.food_mul.hundredths(),
            food_food_mul: self.food_food_mul.hundredths(),
            enemy_mul: self.enemy_mul.hundredths(),
            enemy_health_mul: self.enemy_health_mul.hundredths(),
            enemy_damage_mul: self.enemy_damage_mul.hundredths(),
        }
    }
}

impl Default for Difficulty {
    fn default() -> (r: Difficulty)
        ensures
            r == Difficulty::of_percents(100, 100, 100, 100, 100),
    {
        Difficulty::new()
    }
}

impl MulSpecImpl for Difficulty {
    open spec fn obeys_mul_spec() -> bool {
        true
    }

    open spec fn mul_req(self, rhs: Difficulty) -> bool {
        true
    }

    open spec fn mul_spec(self, rhs: Difficulty) -> Difficulty {
        self.composed(rhs)
    }
}

impl Mul for Difficulty {
    type Output = Difficulty;

    /// Composes two difficulties, multiplier by multiplier. Each part of a
    /// product is taken modulo `2^32`; where every product fits, as it does
    /// for two plain difficulties, the result is the composition of the
    /// fractions.
    fn mul(self, other: Difficulty) -> (r: Difficulty)
        ensures
            r == self.composed(other),
            self@.compose(other@).fits() ==> r@ == self@.compose(other@),
            self@.compose(other@).fits() && self.wf() && other.wf() ==> r.wf(),
    {
        Difficulty {
            food_mul: self.food_mul.times(other.food_mul),
            food_food_mul: self.food_food_mul.times(other.food_food_mul),
            enemy_mul: self.enemy_mul.times(other.enemy_mul),
            enemy_health_mul: self.enemy_health_mul.times(other.enemy_health_mul),
            enemy_damage_mul: self.enemy_damage_mul.times(other.enemy_damage_mul),
        }
    }
}

proof fn lemma_spec_times_commutative(a: Factor, b: Factor)
    ensures
        a.spec_times(b) == b.spec_times(a),
{
    lemma_mul_is_commutative(a.num as int, b.num as int);
    lemma_mul_is_commutative(a.den as int, b.den as int);
}

proof fn lemma_product_mod_associative(a: int, b: int, c: int)
    requires
        0 <= a,
        0 <= b,
        0 <= c,
    ensures
        (((a * b) % 0x1_0000_0000) * c) % 0x1_0000_0000 == (a * ((b * c) % 0x1_0000_0000)) % 0x1_0000_0000,
{
    let m: int = 0x1_0000_0000;
    vstd::arithmetic::div_mod::lemma_mul_mod_noop_left(a * b, c, m);
    vstd::arithmetic::div_mod::lemma_mul_mod_noop_right(a, b * c, m);
    lemma_mul_is_associative(a, b, c);
}

proof fn lemma_spec_times_associative(a: Factor, b: Factor, c: Factor)
    ensures
        a.spec_times(b).spec_times(c) == a.spec_times(b.spec_times(c)),
{
    let m: int = 0x1_0000_0000;
    lemma_product_mod_associative(a.num as int, b.num as int, c.num as int);
    lemma_product_mod_associative(a.den as int, b.den as int, c.den as int);
    lemma_mul_nonnegative(a.num as int, b.num as int);
    lemma_mul_nonnegative(a.den as int, b.den as int);
    lemma_mul_nonnegative(b.num as int, c.num as int);
    lemma_mul_nonnegative(b.den as int, c.den as int);
    assert(0 <= (a.num * b.num) % m < m && 0 <= (a.den * b.den) % m < m);
    assert(0 <= (b.num * c.num) % m < m && 0 <= (b.den * c.den) % m < m);
}

/// Composing difficulties is commutative for all of them: `a * b` and
/// `b * a` are the same, multiplier by multiplier.
pub proof fn lemma_mul_commutative(a: Difficulty, b: Difficulty)
    ensures
        a.composed(b) == b.composed(a),
{
    lemma_spec_times_commutative(a.food_mul, b.food_mul);
    lemma_spec_times_commutative(a.food_food_mul, b.food_food_mul);
    lemma_spec_times_commutative(a.enemy_mul, b.enemy_mul);
    lemma_spec_times_commutative(a.enemy_health_mul, b.enemy_health_mul);
    lemma_spec_times_commutative(a.enemy_damage_mul, b.enemy_damage_mul);
}

/// Composing difficulties is associative for all of them: `(a * b) * c`
/// and `a * (b * c)` are the same, multiplier by multiplier.
pub proof fn lemma_mul_associative(a: Difficulty, b: Difficulty, c: Difficulty)
    ensures
        a.composed(b).composed(c) == a.composed(b.composed(c)),
{
    lemma_spec_times_associative(a.food_mul, b.food_mul, c.food_mul);
    lemma_spec_times_associative(a.food_food_mul, b.food_food_mul, c.food_food_mul);
    lemma_spec_times_associative(a.enemy_mul, b.enemy_mul, c.enemy_mul);
    lemma_spec_times_associative(a.enemy_health_mul, b.enemy_health_mul, c.enemy_health_mul);
    lemma_spec_times_associative(a.enemy_damage_mul, b.enemy_damage_mul, c.enemy_damage_mul);
}

/// Composing with the difficulty whose multipliers are all `1 / 1` changes
/// nothing, on either side.
pub proof fn lemma_mul_identity(a: Difficulty)
    ensures
        a.composed(Difficulty::unit()) == a,
        Difficulty::unit().composed(a) == a,
{
    let m: nat = 0x1_0000_0000;
    vstd::arithmetic::div_mod::lemma_small_mod(a.food_mul.num as nat, m);
    vstd::arithmetic::div_mod::lemma_small_mod(a.food_mul.den as nat, m);
    vstd::arithmetic::div_mod::lemma_small_mod(a.food_food_mul.num as nat, m);
    vstd::arithmetic::div_mod::lemma_small_mod(a.food_food_mul.den as nat, m);
    vstd::arithmetic::div_mod::lemma_small_mod(a.enemy_mul.num as nat, m);
    vstd::arithmetic::div_mod::lemma_small_mod(a.enemy_mul.den as nat, m);
    vstd::arithmetic::div_mod::lemma_small_mod(a.enemy_health_mul.num as nat, m);
    vstd::arithmetic::div_mod::lemma_small_mod(a.enemy_health_mul.den as nat, m);
    vstd::arithmetic::div_mod::lemma_small_mod(a.enemy_damage_mul.num as nat, m);
    vstd::arithmetic::div_mod::lemma_small_mod(a.enemy_damage_mul.den as nat, m);
}

/// Scaling of a number by a difficulty multiplier.
pub trait DifficultyMul: Sized {
    /// What `apply` returns.
    spec fn applied(self, multiplier: Factor) -> Self;

    /// Scales `self` by `multiplier`.
    fn apply(self, multiplier: Factor) -> (r: Self)
        requires
            multiplier.wf(),
        ensures
            r == self.applied(multiplier),
    ;
}

impl DifficultyMul for u32 {
    /// The scaled number is rounded down and capped at `u32::MAX`.
    open spec fn applied(self, multiplier: Factor) -> u32 {
        multiplier@.scale(self as nat) as u32
    }

    fn apply(self, multiplier: Factor) -> (r: u32) {
        multiplier.scale(self)
    }
}

/// Two plain difficulties can always be composed.
pub proof fn lemma_plain_composes(a: Difficulty, b: Difficulty)
    requires
        a.plain(),
        b.plain(),
    ensures
        a@.compose(b@).fits(),
{
    lemma_plain_factors_compose(a.food_mul, b.food_mul);
    lemma_plain_factors_compose(a.food_food_mul, b.food_food_mul);
    lemma_plain_factors_compose(a.enemy_mul, b.enemy_mul);
    lemma_plain_factors_compose(a.enemy_health_mul, b.enemy_health_mul);
    lemma_plain_factors_compose(a.enemy_damage_mul, b.enemy_damage_mul);
}

proof fn lemma_plain_factors_compose(a: Factor, b: Factor)
    requires
        a.plain(),
        b.plain(),
    ensures
        a@.times(b@).fits(),
{
    lemma_mul_upper_bound(a.num as int, 0xffff, b.num as int, 0xffff);
    lemma_mul_upper_bound(a.den as int, 0xffff, b.den as int, 0xffff);
}

proof fn lemma_times_commutative(a: Rational, b: Rational)
    ensures
        a.times(b) == b.times(a),
{
    lemma_mul_is_commutative(a.num as int, b.num as int);
    lemma_mul_is_commutative(a.den as int, b.den as int);
}

proof fn lemma_times_associative(a: Rational, b: Rational, c: Rational)
    ensures
        a.times(b).times(c) == a.times(b.times(c)),
{
    lemma_mul_is_associative(a.num as int, b.num as int, c.num as int);
    lemma_mul_is_associative(a.den as int, b.den as int, c.den as int);
}

/// Composition is commutative: the order of two difficulties does not matter.
pub proof fn lemma_compose_commutative(a: DifficultyView, b: DifficultyView)
    ensures
        a.compose(b) == b.compose(a),
{
    lemma_times_commutative(a.food_mul, b.food_mul);
    lemma_times_commutative(a.food_food_mul, b.food_food_mul);
    lemma_times_commutative(a.enemy_mul, b.enemy_mul);
    lemma_times_commutative(a.enemy_health_mul, b.enemy_health_mul);
    lemma_times_commutative(a.enemy_damage_mul, b.enemy_damage_mul);
}

/// Composition is associative: the grouping of three difficulties does not
/// matter.
pub proof fn lemma_compose_associative(a: DifficultyView, b: DifficultyView, c: DifficultyView)
    ensures
        a.compose(b).compose(c) == a.compose(b.compose(c)),
{
    lemma_times_associative(a.food_mul, b.food_mul, c.food_mul);
    lemma_times_associative(a.food_food_mul, b.food_food_mul, c.food_food_mul);
    lemma_times_associative(a.enemy_mul, b.enemy_mul, c.enemy_mul);
    lemma_times_associative(a.enemy_health_mul, b.enemy_health_mul, c.enemy_health_mul);
    lemma_times_associative(a.enemy_damage_mul, b.enemy_damage_mul, c.enemy_damage_mul);
}

/// The difficulty whose multipliers are all one is the identity of
/// composition, on either side.
pub proof fn lemma_compose_identity(a: DifficultyView)
    ensures
        a.compose(DifficultyView::one()) == a,
        DifficultyView::one().compose(a) == a,
{
}

} // verus!
