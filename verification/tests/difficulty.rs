use frob_adventure::difficulty::{Difficulty, DifficultyKey, DifficultyMul, Factor};

#[test]
fn easy_times_hard_multiplies_each_field() {
    let d = Difficulty::easy() * Difficulty::hard();
    assert_eq!(d.food_mul, Factor { num: 150 * 75, den: 100 * 100 });
    assert_eq!(d.food_food_mul, Factor { num: 120 * 80, den: 100 * 100 });
    assert_eq!(d.enemy_mul, Factor { num: 75 * 150, den: 100 * 100 });
    assert_eq!(d.enemy_health_mul, Factor { num: 80 * 150, den: 100 * 100 });
    assert_eq!(d.enemy_damage_mul, Factor { num: 75 * 200, den: 100 * 100 });
}

#[test]
fn composition_is_commutative_on_presets() {
    assert_eq!(Difficulty::easy() * Difficulty::hard(), Difficulty::hard() * Difficulty::easy());
}

#[test]
fn composition_is_associative_on_presets() {
    let a = Difficulty::easy();
    let b = Difficulty::hard();
    let c = Difficulty::normal();
    assert_eq!((a * b) * c, a * (b * c));
}

#[test]
fn normal_scales_nothing() {
    let d = Difficulty::normal();
    assert_eq!(7u32.apply(d.food_food_mul), 7);
    assert_eq!(Difficulty::default(), Difficulty::new());
    assert_eq!(Difficulty::normal(), Difficulty::new());
}

#[test]
fn presets_have_their_multipliers() {
    let easy = Difficulty::easy();
    assert_eq!(easy.food_mul, Factor::percent(150));
    assert_eq!(easy.food_food_mul, Factor::percent(120));
    assert_eq!(easy.enemy_mul, Factor::percent(75));
    assert_eq!(easy.enemy_health_mul, Factor::percent(80));
    assert_eq!(easy.enemy_damage_mul, Factor::percent(75));
    let hard = Difficulty::hard();
    assert_eq!(hard.food_mul, Factor::percent(75));
    assert_eq!(hard.food_food_mul, Factor::percent(80));
    assert_eq!(hard.enemy_mul, Factor::percent(150));
    assert_eq!(hard.enemy_health_mul, Factor::percent(150));
    assert_eq!(hard.enemy_damage_mul, Factor::percent(200));
    let none = Difficulty::none();
    assert_eq!(none.food_mul, Factor::percent(0));
    assert_eq!(none.enemy_damage_mul, Factor::percent(0));
}

#[test]
fn builders_replace_one_multiplier() {
    let d = Difficulty::new().enemy_health_mul(Factor { num: 3, den: 2 });
    assert_eq!(d.enemy_health_mul, Factor { num: 3, den: 2 });
    assert_eq!(d.food_mul, Factor::percent(100));
    assert_eq!(d.food_food_mul, Factor::percent(100));
    assert_eq!(d.enemy_mul, Factor::percent(100));
    assert_eq!(d.enemy_damage_mul, Factor::percent(100));
}

#[test]
fn apply_rounds_down() {
    assert_eq!(7u32.apply(Factor::percent(120)), 8);
    assert_eq!(5u32.apply(Factor::percent(75)), 3);
    assert_eq!(3u32.apply(Factor::percent(0)), 0);
    assert_eq!(7u32.apply(Factor { num: 1, den: 3 }), 2);
}

#[test]
fn apply_stops_at_the_largest_number() {
    assert_eq!(u32::MAX.apply(Factor::percent(200)), u32::MAX);
}

#[test]
fn quantized_key_is_in_whole_hundredths() {
    let d = Difficulty::easy() * Difficulty::hard();
    let key = d.quantized();
    assert_eq!(
        key,
        DifficultyKey { food_mul: 112, food_food_mul: 96, enemy_mul: 112, enemy_health_mul: 120, enemy_damage_mul: 150 }
    );
    let third = Difficulty::new().food_mul(Factor { num: 1, den: 3 });
    assert_eq!(third.quantized().food_mul, 33);
}

#[test]
fn equal_fractions_share_a_key() {
    let a = Difficulty::new().food_mul(Factor { num: 3, den: 2 });
    let b = Difficulty::new().food_mul(Factor::percent(150));
    assert_ne!(a, b);
    assert_eq!(a.quantized(), b.quantized());
}

#[test]
fn levels_are_found_by_name() {
    assert_eq!(Difficulty::named("easy"), Some(Difficulty::easy()));
    assert_eq!(Difficulty::named("normal"), Some(Difficulty::normal()));
    assert_eq!(Difficulty::named("hard"), Some(Difficulty::hard()));
    assert_eq!(Difficulty::named("Easy"), None);
    assert_eq!(Difficulty::named(""), None);
}

#[test]
fn plain_factors_are_told_apart() {
    assert!(Factor::percent(150).is_plain());
    assert!(!Factor { num: 1, den: 0 }.is_plain());
    assert!(!Factor { num: 70000, den: 1 }.is_plain());
    assert!(Difficulty::hard().is_plain());
    assert!(!(Difficulty::hard() * Difficulty::new().food_mul(Factor { num: 1, den: 1000 })).is_plain());
}

#[test]
fn factor_times_multiplies_both_parts() {
    assert_eq!(Factor { num: 3, den: 2 }.times(Factor { num: 5, den: 7 }), Factor { num: 15, den: 14 });
    assert_eq!(Factor { num: 3, den: 2 }.hundredths(), 150);
    assert_eq!(Factor::percent(150).scale(10), 15);
}

#[test]
fn composition_is_associative_and_commutative_for_all() {
    let huge = Difficulty::new()
        .food_mul(Factor { num: u32::MAX, den: 70_000 })
        .enemy_mul(Factor { num: 123_456_789, den: u32::MAX })
        .enemy_damage_mul(Factor { num: 0, den: 0 });
    let odd = Difficulty::new().food_mul(Factor { num: 65_537, den: 99_991 }).enemy_mul(Factor { num: 7, den: 3 });
    let all = [huge, odd, Difficulty::easy(), Difficulty::hard(), Difficulty::none(), Difficulty::normal()];
    for a in all {
        for b in all {
            assert_eq!(a * b, b * a);
            for c in all {
                assert_eq!((a * b) * c, a * (b * c));
            }
        }
    }
}

#[test]
fn a_product_that_does_not_fit_is_cut_off() {
    let a = Factor { num: 70_000, den: 1 << 16 };
    let b = Factor { num: 70_000, den: 1 << 16 };
    assert_eq!(a.times(b), Factor { num: (4_900_000_000u64 % (1 << 32)) as u32, den: 0 });
}
