use frob_adventure::difficulty::{Difficulty, Factor};
use frob_adventure::entity::EntityKind;
use frob_adventure::map::{check_registry, Direction, TileKind};
use frob_adventure::sector::{HEIGHT, WIDTH};
use frob_adventure::world::World;
use frob_adventure::world_map::{sectors, try_sectors, MapTexts};

fn filled(c: &str) -> String {
    vec![c.repeat(WIDTH); HEIGHT].join("\n")
}

fn texts() -> MapTexts {
    MapTexts {
        start: filled("_"),
        plains1: filled("$"),
        plains2: filled("n"),
        plains3: filled("="),
        plains4: filled("_"),
        mountains1: filled("A"),
        peninsula1: filled("~"),
        village1: filled("%"),
    }
}

#[test]
fn the_world_has_eight_linked_sectors() {
    assert!(texts().check());
    let all = sectors(&texts());
    let names: Vec<&str> = all.iter().map(|s| s.id.as_str()).collect();
    assert_eq!(
        names,
        vec!["start", "plains1", "plains2", "plains3", "plains4", "mountains1", "peninsula1", "village1"]
    );
    assert!(check_registry(&all));
    assert_eq!(all[0].neighbor(Direction::Left), Some("plains1"));
    assert_eq!(all[0].neighbor(Direction::Right), None);
    assert_eq!(all[1].neighbor(Direction::Up), Some("plains4"));
    assert_eq!(all[1].neighbor(Direction::Down), Some("plains3"));
    assert_eq!(all[1].neighbor(Direction::Left), Some("plains2"));
    assert_eq!(all[1].neighbor(Direction::Right), Some("start"));
    assert_eq!(all[2].neighbor(Direction::Left), Some("mountains1"));
    assert_eq!(all[3].neighbor(Direction::Down), Some("peninsula1"));
    assert_eq!(all[4].get_entrance(17, 11), Some("village1"));
    assert_eq!(all[5].neighbor(Direction::Right), Some("plains2"));
    assert_eq!(all[6].neighbor(Direction::Up), Some("plains3"));
    assert_eq!(all[7].neighbor(Direction::Up), Some("plains4"));
    assert_eq!(all[7].return_tile, Some((17, 11)));
    assert!(!all[7].do_survival);
}

#[test]
fn the_sectors_have_their_difficulties_and_tiles() {
    let all = sectors(&texts());
    assert_eq!(all[0].difficulty, Difficulty::easy());
    assert_eq!(all[1].difficulty, Difficulty::normal());
    assert_eq!(all[5].difficulty.food_mul, Factor::percent(50));
    assert_eq!(all[5].difficulty.food_food_mul, Factor::percent(150));
    assert_eq!(all[5].difficulty.enemy_mul, Factor::percent(200));
    assert_eq!(all[6].difficulty, Difficulty::hard());
    assert_eq!(all[7].difficulty, Difficulty::none());
    assert_eq!(all[2].tiles()[3][3].kind, TileKind::Hill);
    assert_eq!(all[6].tiles()[HEIGHT - 1][WIDTH - 1].kind, TileKind::Water);
}

#[test]
fn the_authored_entities_are_numbered_in_order() {
    let all = sectors(&texts());
    let ids: Vec<Vec<Option<u32>>> = all.iter().map(|s| s.entities().iter().map(|e| e.id()).collect()).collect();
    assert_eq!(
        ids,
        vec![
            vec![Some(1), Some(2)],
            vec![],
            vec![],
            vec![Some(3)],
            vec![Some(4)],
            vec![Some(5), Some(6)],
            vec![Some(7)],
            vec![Some(9)],
        ]
    );
    for sector in &all {
        for e in sector.entities() {
            assert!(e.persist && e.alive);
        }
    }
    match &all[7].entities()[0].kind {
        EntityKind::Npc { items, dialogue, dialogue_idx, .. } => {
            assert_eq!(items.len(), 1);
            assert_eq!(items[0].0.name, "Pouch");
            assert_eq!(items[0].0.id, 8);
            assert_eq!(items[0].1, 2);
            assert_eq!(dialogue.len(), 3);
            assert_eq!(*dialogue_idx, Some(0));
        }
        _ => panic!("the host is a character"),
    }
    match &all[0].entities()[1].kind {
        EntityKind::Boss { health, damage, damage_gain, block, .. } => {
            assert_eq!((*health, *damage, *damage_gain), (30, 5, 2));
            assert_eq!(block.0, Direction::Right);
            assert_eq!(block.1.kind, TileKind::Forest);
        }
        _ => panic!("the second guardian is a boss"),
    }
}

#[test]
fn an_invalid_text_is_found() {
    let mut maps = texts();
    maps.peninsula1 = "__!__".to_string();
    assert!(!maps.check());
}

#[test]
fn the_adventure_starts_at_the_start() {
    let w = World::new(12, 14, sectors(&texts()), "start");
    assert_eq!(w.map.sector().id, "start");
    assert_eq!(w.entities.len(), 2);
    assert_eq!((w.player.x, w.player.y), (12, 14));
}

#[test]
fn the_sectors_are_made_only_from_valid_maps() {
    let mut maps = texts();
    maps.start = format!("\r\n{}\r\n", maps.start);
    let all = try_sectors(&maps).unwrap();
    assert_eq!(all.len(), 8);
    assert_eq!(all[0].tiles()[0][0].kind, TileKind::Grass);
    maps.village1 = "_x_".to_string();
    assert!(try_sectors(&maps).is_none());
}
