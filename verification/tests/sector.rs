use frob_adventure::difficulty::Difficulty;
use frob_adventure::entity::{Entity, EntityKind};
use frob_adventure::map::{check_registry, Direction, SectorMap, Tile, TileKind};
use frob_adventure::sector::{is_valid_map, parse_grid, Sector, HEIGHT, WIDTH};

fn rows_of(row: &str) -> String {
    vec![row.to_string(); HEIGHT].join("\n")
}

fn grass() -> String {
    rows_of(&"_".repeat(WIDTH))
}

fn plain_sector(id: &str) -> Sector {
    Sector::new(&grass(), id, Vec::new(), [None, None, None, None])
}

#[test]
fn every_tile_character_is_read() {
    let grid = parse_grid("~_$nA=%^").unwrap();
    let kinds = [
        TileKind::Water,
        TileKind::Grass,
        TileKind::Forest,
        TileKind::Hill,
        TileKind::Mountain,
        TileKind::Road,
        TileKind::Village,
        TileKind::Building,
    ];
    for (x, kind) in kinds.iter().enumerate() {
        assert_eq!(grid[0][x], Tile { kind: *kind });
        assert_eq!(TileKind::from_symbol(kind.symbol()), Some(*kind));
    }
    assert_eq!(grid[0][8], Tile::default());
    assert_eq!(grid[1][0], Tile { kind: TileKind::Water });
}

#[test]
fn an_unknown_character_is_refused() {
    assert!(parse_grid("__x__").is_none());
    assert!(parse_grid("__\r\n__").is_none());
    assert!(Sector::parse("_?", "s", Vec::new(), [None, None, None, None]).is_none());
    assert_eq!(TileKind::from_symbol('x'), None);
}

#[test]
fn a_newline_ends_a_row_that_has_tiles() {
    let grid = parse_grid("__\n$$$\n\n\nn").unwrap();
    assert_eq!(grid[0][1].kind, TileKind::Grass);
    assert_eq!(grid[0][2].kind, TileKind::Water);
    assert_eq!(grid[1][2].kind, TileKind::Forest);
    // empty lines do not skip a row
    assert_eq!(grid[2][0].kind, TileKind::Hill);
}

#[test]
fn leading_and_trailing_blanks_are_skipped() {
    let grid = parse_grid("\n\n  \t__\n  $$  \n\n").unwrap();
    assert_eq!(grid[0][0].kind, TileKind::Grass);
    assert_eq!(grid[0][1].kind, TileKind::Grass);
    assert_eq!(grid[1][0].kind, TileKind::Forest);
    assert_eq!(grid[1][1].kind, TileKind::Forest);
    assert_eq!(grid[1][2].kind, TileKind::Water);
}

#[test]
fn a_full_row_wraps_by_itself() {
    let text = format!("{}\n{}", "_".repeat(WIDTH), "$");
    let grid = parse_grid(&text).unwrap();
    assert_eq!(grid[0][WIDTH - 1].kind, TileKind::Grass);
    // the newline after a full row does not skip a row
    assert_eq!(grid[1][0].kind, TileKind::Forest);
    let long = "n".repeat(WIDTH + 3);
    let grid = parse_grid(&long).unwrap();
    assert_eq!(grid[1][2].kind, TileKind::Hill);
    assert_eq!(grid[1][3].kind, TileKind::Water);
}

#[test]
fn reading_stops_after_the_last_row() {
    let text = format!("{}\nthis is never read", rows_of(&"A".repeat(WIDTH)));
    let grid = parse_grid(&text).unwrap();
    assert_eq!(grid[HEIGHT - 1][WIDTH - 1].kind, TileKind::Mountain);
}

#[test]
fn get_is_absent_outside_the_grid() {
    let s = plain_sector("s");
    assert_eq!(s.get(0, 0), Some(Tile { kind: TileKind::Grass }));
    assert_eq!(s.get(WIDTH as u32 - 1, HEIGHT as u32 - 1), Some(Tile { kind: TileKind::Grass }));
    assert_eq!(s.get(WIDTH as u32, 0), None);
    assert_eq!(s.get(0, HEIGHT as u32), None);
    assert_eq!(s.get(u32::MAX, u32::MAX), None);
}

#[test]
fn set_changes_the_tile_and_logs_it() {
    let mut s = plain_sector("s");
    assert!(s.changed().is_empty());
    s.set(3, 4, Tile { kind: TileKind::Road });
    s.set(5, 6, Tile { kind: TileKind::Hill });
    s.set(3, 4, Tile { kind: TileKind::Water });
    assert_eq!(s.get(3, 4), Some(Tile { kind: TileKind::Water }));
    assert_eq!(s.get(5, 6), Some(Tile { kind: TileKind::Hill }));
    assert_eq!(s.get(4, 3), Some(Tile { kind: TileKind::Grass }));
    assert_eq!(s.changed().to_vec(), vec![(3, 4), (5, 6), (3, 4)]);
    assert_eq!(s.tiles()[4][3].kind, TileKind::Water);
}

#[test]
fn a_new_sector_has_the_defaults() {
    let s = Sector::new(&grass(), "home", Vec::new(), [None, Some("south"), None, Some("east")]);
    assert_eq!(s.id, "home");
    assert_eq!(s.difficulty, Difficulty::normal());
    assert!(s.do_survival);
    assert_eq!(s.return_tile, None);
    assert!(s.entities().is_empty());
    assert_eq!(s.neighbor(Direction::Up), None);
    assert_eq!(s.neighbor(Direction::Down), Some("south"));
    assert_eq!(s.neighbor(Direction::Left), None);
    assert_eq!(s.neighbor(Direction::Right), Some("east"));
    assert_eq!(s.get_entrance(0, 0), None);
    assert!(s.check());
}

#[test]
fn a_town_rests_and_leads_outside() {
    let t = Sector::town(&grass(), "village", Vec::new(), "fields", 17, 11);
    assert!(!t.do_survival);
    assert_eq!(t.difficulty, Difficulty::none());
    assert_eq!(t.return_tile, Some((17, 11)));
    for d in [Direction::Up, Direction::Down, Direction::Left, Direction::Right] {
        assert_eq!(t.neighbor(d), Some("fields"));
    }
}

#[test]
fn the_first_entrance_at_a_place_is_found() {
    let mut s = plain_sector("s");
    s.entrance(17, 11, "village");
    s.entrance(2, 3, "cave");
    s.entrance(17, 11, "cellar");
    assert_eq!(s.get_entrance(17, 11), Some("village"));
    assert_eq!(s.get_entrance(2, 3), Some("cave"));
    assert_eq!(s.get_entrance(11, 17), None);
}

#[test]
fn neighbors_and_difficulty_can_be_set() {
    let mut s = plain_sector("s").with_difficulty(Difficulty::hard());
    assert_eq!(s.difficulty, Difficulty::hard());
    s.add_neighbor(Direction::Left, "west");
    assert_eq!(s.neighbor(Direction::Left), Some("west"));
    assert_eq!(s.neighbor(Direction::Right), None);
}

#[test]
fn entities_are_saved_and_despawned() {
    let mut s = plain_sector("s");
    let food = |x| Entity::new(x, 0, EntityKind::Food { food: x }, false);
    let boss = |x, id| {
        Entity::new(
            x,
            1,
            EntityKind::Boss {
                health: 5,
                damage: 1,
                id,
                damage_gain: 1,
                block: (Direction::Down, Tile { kind: TileKind::Grass }),
            },
            true,
        )
    };
    s.save_entities(vec![food(1), boss(2, 7), food(3), boss(4, 9), boss(5, 7)]);
    assert_eq!(s.entities().len(), 5);
    s.despawn(0);
    assert_eq!(s.entities()[0].id(), Some(7));
    s.despawn_id(7);
    assert_eq!(s.entities().len(), 3);
    assert_eq!(s.entities()[0].id(), None);
    assert_eq!(s.entities()[1].id(), Some(9));
    assert_eq!(s.entities()[2].id(), Some(7));
    s.despawn_id(8);
    assert_eq!(s.entities().len(), 3);
    assert_eq!(s.clone(), s);
}

#[test]
fn a_sector_with_a_stray_entity_is_not_well_formed() {
    let mut s = plain_sector("s");
    s.save_entities(vec![Entity::new(WIDTH as u32, 0, EntityKind::Food { food: 1 }, false)]);
    assert!(!s.check());
    let mut t = plain_sector("t");
    t.return_tile = Some((0, HEIGHT as u32));
    assert!(!t.check());
}

#[test]
fn a_registry_needs_closed_links_and_distinct_names() {
    let a = Sector::new(&grass(), "a", Vec::new(), [None, None, None, Some("b")]);
    let b = Sector::new(&grass(), "b", Vec::new(), [None, None, Some("a"), None]);
    assert!(check_registry(&vec![a.clone(), b.clone()]));
    assert!(!check_registry(&vec![a.clone()]));
    assert!(!check_registry(&vec![a.clone(), b.clone(), a.clone()]));
    let mut c = plain_sector("c");
    c.entrance(1, 1, "nowhere");
    assert!(!check_registry(&vec![a.clone(), b.clone(), c]));
    assert!(check_registry(&Vec::new()));
}

#[test]
fn a_map_loads_sectors_by_name() {
    let mut a = Sector::new(&grass(), "a", Vec::new(), [None, None, None, Some("b")]);
    a.save_entities(vec![Entity::new(1, 1, EntityKind::Food { food: 2 }, true)]);
    let b = Sector::new(&rows_of(&"$".repeat(WIDTH)), "b", Vec::new(), [None, None, Some("a"), None]);
    let (entities, mut map) = SectorMap::new(vec![a, b], "a");
    assert_eq!(entities.len(), 1);
    assert_eq!(map.sector().id, "a");
    assert_eq!(map.get(0, 0), Some(Tile { kind: TileKind::Grass }));
    assert_eq!(map.get(WIDTH as u32, 0), None);
    let loaded = map.load("b");
    assert!(loaded.is_empty());
    assert_eq!(map.sector().id, "b");
    assert_eq!(map.tiles()[0][0].kind, TileKind::Forest);
    map.set(2, 2, Tile { kind: TileKind::Road });
    assert_eq!(map.get(2, 2), Some(Tile { kind: TileKind::Road }));
    assert_eq!(map.sector().changed().to_vec(), vec![(2, 2)]);
    map.save_entities("a", Vec::new());
    assert!(map.load("a").is_empty());
    assert_eq!(map.baseline[0].entities().len(), 1);
}

#[test]
fn entities_can_be_changed_in_place() {
    let mut s = plain_sector("s");
    s.save_entities(vec![Entity::new(1, 1, EntityKind::Food { food: 2 }, true)]);
    s.entities_mut()[0].x = 9;
    assert_eq!(s.entities()[0].x, 9);
    let (_, mut map) = SectorMap::new(vec![s], "s");
    map.sector_mut().do_survival = false;
    assert!(!map.sector().do_survival);
    assert!(map.baseline[0].do_survival);
}

#[test]
fn a_changed_sector_follows_its_baseline_through_its_log() {
    let baseline = plain_sector("s");
    let mut s = baseline.clone();
    assert!(s.follows(&baseline));
    s.set(2, 3, Tile { kind: TileKind::Hill });
    assert!(s.follows(&baseline));
    s.tiles[5][5] = Tile { kind: TileKind::Hill };
    assert!(!s.follows(&baseline));
    s.changed.push((5, 5));
    assert!(s.follows(&baseline));
}

#[test]
fn two_entities_with_one_id_are_not_well_formed() {
    let relic = |x| {
        Entity::new(x, 0, EntityKind::Item(frob_adventure::item::Item::default()), true)
    };
    let mut s = plain_sector("s");
    s.save_entities(vec![relic(1)]);
    assert!(s.check());
    s.save_entities(vec![relic(1), Entity::new(2, 0, EntityKind::Food { food: 1 }, false), relic(3)]);
    assert!(!s.check());
}

#[test]
fn whitespace_around_a_map_is_trimmed() {
    let text = "\r\n\u{a0} __\n$$ \u{2003}\r\n";
    assert!(parse_grid(text).is_none());
    assert!(is_valid_map(text));
    assert!(Sector::from_text(text, "s", Vec::new(), [None, None, None, None]).is_none());
    let s = Sector::new(text, "s", Vec::new(), [None, None, None, None]);
    assert_eq!(s.get(0, 0), Some(Tile { kind: TileKind::Grass }));
    assert_eq!(s.get(1, 1), Some(Tile { kind: TileKind::Forest }));
    assert_eq!(s.get(2, 1), Some(Tile { kind: TileKind::Water }));
    assert_eq!(Sector::parse(text, "s", Vec::new(), [None, None, None, None]), Some(s.clone()));
    assert_eq!(Sector::from_text("__\n$$", "s", Vec::new(), [None, None, None, None]), Some(s));
    // whitespace inside the text is not trimmed
    assert!(!is_valid_map("__\r\n$$"));
    assert!(Sector::parse("__\r\n$$", "s", Vec::new(), [None, None, None, None]).is_none());
}

#[test]
fn a_town_is_parsed_or_refused() {
    let town = Sector::parse_town(&grass(), "village", Vec::new(), "fields", 17, 11).unwrap();
    assert_eq!(town, Sector::town(&grass(), "village", Vec::new(), "fields", 17, 11));
    assert!(Sector::parse_town("_x_", "village", Vec::new(), "fields", 17, 11).is_none());
}
