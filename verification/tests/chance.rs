use frob_adventure::chance::{sample, sample_of, spawn_triggered, tile_accepted, within_percent, UNIT};
use frob_adventure::difficulty::{Difficulty, Factor};
use frob_adventure::entity::{spawn_band, Band};

#[test]
fn samples_stay_below_the_unit() {
    let mut low = false;
    let mut high = false;
    for _ in 0..2000 {
        let k = sample();
        assert!(k < UNIT);
        if k < UNIT / 2 {
            low = true;
        } else {
            high = true;
        }
    }
    assert!(low && high);
}

#[test]
fn within_percent_compares_exactly() {
    assert!(within_percent(0, 0));
    assert!(!within_percent(1, 0));
    assert!(within_percent(UNIT / 2, 50));
    assert!(!within_percent(UNIT / 2 + 1, 50));
    // 55 hundredths of 2^24 is 9227468.8
    assert!(within_percent(9227468, 55));
    assert!(!within_percent(9227469, 55));
    assert!(within_percent(UNIT - 1, 100));
}

#[test]
fn spawn_chance_grows_with_the_coefficient() {
    let one = Factor { num: 15, den: 15 };
    assert!(spawn_triggered(one, UNIT / 2));
    assert!(!spawn_triggered(one, UNIT / 2 + 1));
    let two = Factor { num: 30, den: 15 };
    assert!(spawn_triggered(two, UNIT - 1));
    let a_bit = Factor { num: 18, den: 15 };
    // half of 1.2 is 0.6: 0.6 * 2^24 = 10066329.6
    assert!(spawn_triggered(a_bit, 10066329));
    assert!(!spawn_triggered(a_bit, 10066330));
}

#[test]
fn tile_chance_is_share_plus_bias() {
    // 75 / (100 * 384) of 2^24 is 32768
    assert!(tile_accepted(75, 0, 32768, 384));
    assert!(!tile_accepted(75, 0, 32769, 384));
    // one pass adds 1/192: (75 + 200) / 38400 of 2^24 is 120149.3
    assert!(tile_accepted(75, 1, 120149, 384));
    assert!(!tile_accepted(75, 1, 120150, 384));
    // after 192 passes every sample is accepted
    assert!(tile_accepted(10, 192, UNIT - 1, 384));
    assert!(!tile_accepted(10, 191, UNIT - 1, 384));
}

#[test]
fn bands_split_the_sample() {
    let normal = Difficulty::normal();
    // food up to 0.6, enemies up to 1.0
    assert_eq!(spawn_band(normal, 0), Band::Food);
    assert_eq!(spawn_band(normal, 10066329), Band::Food);
    assert_eq!(spawn_band(normal, 10066330), Band::Enemy);
    assert_eq!(spawn_band(normal, UNIT - 1), Band::Enemy);
}

#[test]
fn bands_follow_the_difficulty() {
    // food 1.5, enemies 0.75: the sample is scaled by 1.125; food up to 0.9,
    // enemies up to 1.2
    let easy = Difficulty::easy();
    // 0.9 / 1.125 = 0.8 of 2^24 is 13421772.8
    assert_eq!(spawn_band(easy, 13421772), Band::Food);
    assert_eq!(spawn_band(easy, 13421773), Band::Enemy);
    assert_eq!(spawn_band(easy, UNIT - 1), Band::Enemy);
    // food 0.5, enemies 2: the sample is scaled by 1.0; food up to 0.3,
    // enemies up to 1.1
    let wild = Difficulty::new().food_mul(Factor::percent(50)).enemy_mul(Factor::percent(200));
    assert_eq!(spawn_band(wild, 5033164), Band::Food);
    assert_eq!(spawn_band(wild, 5033165), Band::Enemy);
    // food 2, enemies 2: the sample is scaled by 4; food up to 1.2, enemies
    // up to 2.0, nothing beyond
    let rich = Difficulty::new().food_mul(Factor::percent(200)).enemy_mul(Factor::percent(200));
    assert_eq!(spawn_band(rich, 5033164), Band::Food);
    assert_eq!(spawn_band(rich, 5033165), Band::Enemy);
    assert_eq!(spawn_band(rich, UNIT / 2), Band::Enemy);
    assert_eq!(spawn_band(rich, UNIT / 2 + 1), Band::Neither);
}

#[test]
fn nothing_spawns_where_both_multipliers_are_zero() {
    for k in [0, 1, UNIT / 2, UNIT - 1] {
        assert_eq!(spawn_band(Difficulty::none(), k), Band::Neither);
    }
}

#[test]
fn a_band_without_width_brings_nothing() {
    let no_food = Difficulty::new().food_mul(Factor::percent(0));
    let no_enemies = Difficulty::new().enemy_mul(Factor::percent(0));
    for k in [0, 1, UNIT / 2, UNIT - 1] {
        assert_eq!(spawn_band(no_food, k), Band::Enemy);
        assert_eq!(spawn_band(no_enemies, k), Band::Food);
    }
}

#[test]
fn a_sample_is_the_upper_part_of_the_bits() {
    assert_eq!(sample_of(0), 0);
    assert_eq!(sample_of(255), 0);
    assert_eq!(sample_of(256), 1);
    assert_eq!(sample_of(0x8000_0000), UNIT / 2);
    assert_eq!(sample_of(0x1234_5678), 0x12_3456);
    assert_eq!(sample_of(u32::MAX), UNIT - 1);
}
