use frob_adventure::map::{Direction, TileKind};

#[test]
fn directions_step_by_one() {
    assert_eq!(Direction::Up.diff(), (0, -1));
    assert_eq!(Direction::Down.diff(), (0, 1));
    assert_eq!(Direction::Left.diff(), (-1, 0));
    assert_eq!(Direction::Right.diff(), (1, 0));
    assert_eq!(Direction::Up.step(3, 3), (3, 2));
    assert_eq!(Direction::Down.step(3, 3), (3, 4));
    assert_eq!(Direction::Left.step(3, 3), (2, 3));
    assert_eq!(Direction::Right.step(3, 3), (4, 3));
}

#[test]
fn a_step_stops_at_zero() {
    assert_eq!(Direction::Up.step(3, 0), (3, 0));
    assert_eq!(Direction::Left.step(0, 3), (0, 3));
    assert_eq!(Direction::Down.step(0, u32::MAX), (0, u32::MAX));
    assert_eq!(Direction::Up.wrapping_step(3, 0), (3, u32::MAX));
    assert_eq!(Direction::Right.wrapping_step(u32::MAX, 1), (0, 1));
}

#[test]
fn directions_are_numbered() {
    let all = [Direction::Up, Direction::Down, Direction::Left, Direction::Right];
    for (i, d) in all.iter().enumerate() {
        assert_eq!(d.index(), i);
        assert_eq!(Direction::from_index(i as u32), *d);
    }
}

#[test]
fn tiles_have_their_colors() {
    assert_eq!(TileKind::Water.color(), (0, 77, 153));
    assert_eq!(TileKind::Grass.color(), (0, 153, 25));
    assert_eq!(TileKind::Forest.color(), (0, 77, 38));
    assert_eq!(TileKind::Hill.color(), (255, 238, 230));
    assert_eq!(TileKind::Mountain.color(), (230, 255, 242));
}

#[test]
fn faded_colors_match_the_dimming_in_floating_point() {
    for kind in [
        TileKind::Water,
        TileKind::Grass,
        TileKind::Forest,
        TileKind::Hill,
        TileKind::Mountain,
        TileKind::Road,
        TileKind::Village,
        TileKind::Building,
    ] {
        let (r, g, b) = kind.color();
        let light = |c: u8| (c as f32 * (c as f32 / 255.0) * 0.5) as u8;
        let dark = |c: u8| (c as f32 * (c as f32 / (255.0 * 0.8)) * 0.5) as u8;
        assert_eq!(kind.faded_color(), (light(r), light(g), light(b)));
        assert_eq!(kind.dark_faded_color(), (dark(r), dark(g), dark(b)));
    }
}

#[test]
fn faded_water_is_dim() {
    assert_eq!(TileKind::Water.faded_color(), (0, 11, 45));
    assert_eq!(TileKind::Water.dark_faded_color(), (0, 14, 57));
    assert_eq!(TileKind::Hill.faded_color(), (127, 111, 103));
}

#[test]
fn wanderers_avoid_four_kinds() {
    assert!(!TileKind::Water.walkable());
    assert!(!TileKind::Mountain.walkable());
    assert!(!TileKind::Village.walkable());
    assert!(!TileKind::Building.walkable());
    assert!(TileKind::Grass.walkable());
    assert!(TileKind::Forest.walkable());
    assert!(TileKind::Hill.walkable());
    assert!(TileKind::Road.walkable());
}
