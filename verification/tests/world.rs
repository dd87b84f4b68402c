use frob_adventure::difficulty::{Difficulty, Factor};
use frob_adventure::chance::UNIT;
use frob_adventure::entity::{Draw, Entity, EntityKind};
use frob_adventure::input::{BadResult, GoodResult};
use frob_adventure::item::{Buff, Item};
use frob_adventure::map::{Direction, Tile, TileKind};
use frob_adventure::player::Stat;
use frob_adventure::player::constants::{
    CHARACTER, HUNGER_INTERVAL, INITIAL_HUNGER_CAP, INITIAL_THIRST_CAP, THIRST_INTERVAL, UPGRADE_PERCENT,
};
use frob_adventure::sector::{Sector, HEIGHT, WIDTH};
use frob_adventure::world::World;

fn land(row: &str) -> String {
    vec![row.to_string(); HEIGHT].join("\n")
}

fn roads() -> String {
    land(&"=".repeat(WIDTH))
}

fn with_tile(text: &str, x: usize, y: usize, c: u8) -> String {
    let mut bytes = text.as_bytes().to_vec();
    bytes[y * (WIDTH + 1) + x] = c;
    String::from_utf8(bytes).unwrap()
}

fn lone_world(text: &str, entities: Vec<Entity>) -> World {
    let mut sector = Sector::new(text, "here", Vec::new(), [None, None, None, None]);
    sector.save_entities(entities);
    World::new(5, 5, vec![sector], "here")
}

fn enemy(x: u32, y: u32, health: u32, damage: u32) -> Entity {
    Entity::new(x, y, EntityKind::Enemy { health, damage }, false)
}

fn guard(x: u32, y: u32, id: u32) -> Entity {
    Entity::new(
        x,
        y,
        EntityKind::Boss {
            health: 1,
            damage: 1,
            id,
            damage_gain: 2,
            block: (Direction::Right, Tile { kind: TileKind::Grass }),
        },
        true,
    )
}

fn two_sectors() -> World {
    let mut west = Sector::new(&roads(), "west", Vec::new(), [None, None, None, Some("east")]);
    west.save_entities(vec![guard(10, 10, 1)]);
    let mut east = Sector::new(&land(&"$".repeat(WIDTH)), "east", Vec::new(), [None, None, Some("west"), None]);
    east.save_entities(vec![Entity::new(3, 3, EntityKind::Item(Item::basic("Sword", 2, Buff::Damage(2))), true)]);
    World::new(WIDTH as u32 - 1, 5, vec![west, east], "west")
}

#[test]
fn the_constants_are_as_told() {
    assert_eq!(HUNGER_INTERVAL, 8);
    assert_eq!(THIRST_INTERVAL, 6);
    assert_eq!(INITIAL_HUNGER_CAP, 10);
    assert_eq!(INITIAL_THIRST_CAP, 10);
    assert_eq!(UPGRADE_PERCENT, 40);
    assert_eq!(CHARACTER, 'G');
}

#[test]
fn a_new_world_has_a_fresh_player() {
    let w = lone_world(&roads(), vec![enemy(1, 1, 5, 1)]);
    assert_eq!((w.player.x, w.player.y), (5, 5));
    assert_eq!((w.player.hunger, w.player.thirst), (0, 0));
    assert_eq!((w.player.hunger_cap.get(), w.player.thirst_cap.get()), (10, 10));
    assert_eq!((w.player.health, w.player.max_health.get(), w.player.damage.get()), (10, 10, 1));
    assert!(w.player.inventory.is_empty());
    assert_eq!(w.entities, vec![enemy(1, 1, 5, 1)]);
    assert!(w.despawned.is_empty());
    assert_eq!(w.turn, 0);
    assert_eq!(w.difficulty, Difficulty::normal());
    assert_eq!(w.map.sector().id, "here");
}

#[test]
fn the_cap_on_entities_grows_and_stops() {
    let mut w = lone_world(&roads(), Vec::new());
    for (turn, cap) in [(0, 4), (19, 4), (20, 5), (199, 13), (1199, 63), (1200, 64), (1220, 64), (u32::MAX, 64)] {
        w.turn = turn;
        assert_eq!(w.max_entities(), cap);
    }
}

#[test]
fn the_spawn_chance_grows_with_the_turn() {
    let mut w = lone_world(&roads(), Vec::new());
    assert_eq!(w.spawn_chance_coeff(), Factor { num: 15, den: 15 });
    w.turn = 30;
    assert_eq!(w.spawn_chance_coeff(), Factor { num: 45, den: 15 });
    w.turn = u32::MAX;
    assert_eq!(w.spawn_chance_coeff(), Factor { num: u32::MAX, den: 15 });
}

#[test]
fn despawning_enters_identified_entities_in_the_ledger() {
    let mut w = lone_world(&roads(), vec![enemy(1, 1, 5, 1), guard(2, 2, 7), guard(3, 3, 8), guard(4, 4, 7)]);
    w.despawn(0);
    assert!(w.despawned.is_empty());
    w.despawn_id(7);
    assert_eq!(w.entities, vec![guard(3, 3, 8), guard(4, 4, 7)]);
    assert_eq!(w.despawned, vec![("here".to_string(), 7)]);
    w.despawn_id(9);
    assert_eq!(w.entities.len(), 2);
    w.despawn(0);
    assert_eq!(w.despawned, vec![("here".to_string(), 7), ("here".to_string(), 8)]);
}

#[test]
fn spawn_puts_an_entity_inside_the_grid_only() {
    let mut w = lone_world(&roads(), Vec::new());
    w.spawn(3, 4, EntityKind::Food { food: 2 });
    assert_eq!(w.entities, vec![Entity::new(3, 4, EntityKind::Food { food: 2 }, false)]);
    w.spawn(WIDTH as u32, 0, EntityKind::Food { food: 2 });
    w.spawn(0, HEIGHT as u32, EntityKind::Food { food: 2 });
    w.spawn(HEIGHT as u32, HEIGHT as u32, EntityKind::Food { food: 2 });
    assert_eq!(w.entities.len(), 1);
}

#[test]
fn sweeping_removes_the_dead() {
    let mut dead_guard = guard(2, 2, 7);
    dead_guard.alive = false;
    let mut dead_enemy = enemy(3, 3, 1, 1);
    dead_enemy.alive = false;
    let mut w = lone_world(&roads(), Vec::new());
    w.entities = vec![enemy(1, 1, 5, 1), dead_guard, dead_enemy, guard(4, 4, 8)];
    w.sweep();
    assert_eq!(w.entities, vec![enemy(1, 1, 5, 1), guard(4, 4, 8)]);
    assert_eq!(w.despawned, vec![("here".to_string(), 7)]);
}

#[test]
fn a_step_moves_the_player() {
    let mut w = lone_world(&roads(), Vec::new());
    assert_eq!(w.go(Direction::Up), Ok(GoodResult::Proceed));
    assert_eq!((w.player.x, w.player.y), (5, 4));
    assert_eq!(w.go(Direction::Left), Ok(GoodResult::Proceed));
    assert_eq!((w.player.x, w.player.y), (4, 4));
    assert_eq!(w.go(Direction::Down), Ok(GoodResult::Proceed));
    assert_eq!(w.go(Direction::Right), Ok(GoodResult::Proceed));
    assert_eq!((w.player.x, w.player.y), (5, 5));
    assert_eq!(w.turn, 0);
}

#[test]
fn a_mountain_stops_the_player() {
    let mut w = lone_world(&with_tile(&roads(), 6, 5, b'A'), Vec::new());
    assert_eq!(w.go(Direction::Right), Ok(GoodResult::InvalidMove(Direction::Right)));
    assert_eq!((w.player.x, w.player.y), (5, 5));
}

#[test]
fn water_quenches_without_a_step() {
    let mut w = lone_world(&with_tile(&roads(), 5, 6, b'~'), Vec::new());
    w.player.thirst = 9;
    assert_eq!(w.go(Direction::Down), Ok(GoodResult::WaterMove));
    assert_eq!((w.player.x, w.player.y), (5, 5));
    assert_eq!(w.player.thirst, 0);
}

#[test]
fn villages_and_buildings_can_be_entered() {
    let mut w = lone_world(&with_tile(&with_tile(&roads(), 6, 5, b'%'), 7, 5, b'^'), Vec::new());
    assert_eq!(w.go(Direction::Right), Ok(GoodResult::Proceed));
    assert_eq!(w.go(Direction::Right), Ok(GoodResult::Proceed));
    assert_eq!((w.player.x, w.player.y), (7, 5));
}

#[test]
fn an_edge_without_a_neighbor_stops_the_player() {
    let mut w = lone_world(&roads(), Vec::new());
    w.player.x = 0;
    w.player.y = 0;
    assert_eq!(w.go(Direction::Left), Ok(GoodResult::InvalidMove(Direction::Left)));
    assert_eq!(w.go(Direction::Up), Ok(GoodResult::InvalidMove(Direction::Up)));
    w.player.x = WIDTH as u32 - 1;
    w.player.y = HEIGHT as u32 - 1;
    assert_eq!(w.go(Direction::Right), Ok(GoodResult::InvalidMove(Direction::Right)));
    assert_eq!(w.go(Direction::Down), Ok(GoodResult::InvalidMove(Direction::Down)));
    assert_eq!((w.player.x, w.player.y), (WIDTH as u32 - 1, HEIGHT as u32 - 1));
}

#[test]
fn crossing_an_edge_arrives_at_the_opposite_edge() {
    let mut w = two_sectors();
    assert_eq!(w.go(Direction::Right), Ok(GoodResult::Proceed));
    assert_eq!(w.map.sector().id, "east");
    assert_eq!((w.player.x, w.player.y), (0, 5));
    assert_eq!(w.entities.len(), 1);
    assert_eq!(w.entities[0].id(), Some(2));
    assert_eq!(w.go(Direction::Left), Ok(GoodResult::Proceed));
    assert_eq!(w.map.sector().id, "west");
    assert_eq!((w.player.x, w.player.y), (WIDTH as u32 - 1, 5));
}

#[test]
fn crossing_up_and_down_arrives_at_the_opposite_edge() {
    let north = Sector::new(&roads(), "north", Vec::new(), [None, Some("south"), None, None]);
    let south = Sector::new(&roads(), "south", Vec::new(), [Some("north"), None, None, None]);
    let mut w = World::new(7, HEIGHT as u32 - 1, vec![north, south], "north");
    assert_eq!(w.go(Direction::Down), Ok(GoodResult::Proceed));
    assert_eq!(w.map.sector().id, "south");
    assert_eq!((w.player.x, w.player.y), (7, 0));
    assert_eq!(w.go(Direction::Up), Ok(GoodResult::Proceed));
    assert_eq!(w.map.sector().id, "north");
    assert_eq!((w.player.x, w.player.y), (7, HEIGHT as u32 - 1));
}

#[test]
fn crossing_keeps_what_persists_and_drops_the_rest() {
    let mut w = two_sectors();
    w.spawn(1, 1, EntityKind::Food { food: 3 });
    w.spawn(2, 2, EntityKind::Enemy { health: 9, damage: 1 });
    assert_eq!(w.entities.len(), 3);
    w.go(Direction::Right).unwrap();
    assert_eq!(w.map.sectors[0].entities().to_vec(), vec![guard(10, 10, 1)]);
    w.spawn(8, 8, EntityKind::Food { food: 3 });
    w.go(Direction::Left).unwrap();
    assert_eq!(w.entities, vec![guard(10, 10, 1)]);
    w.go(Direction::Right).unwrap();
    assert_eq!(w.entities.len(), 1);
    assert_eq!(w.entities[0].id(), Some(2));
}

#[test]
fn what_was_picked_up_stays_away() {
    let mut w = two_sectors();
    w.go(Direction::Right).unwrap();
    w.player.x = 3;
    w.player.y = 4;
    assert_eq!(w.go(Direction::Up), Ok(GoodResult::PickedUpItem("Sword".to_string())));
    assert!(w.entities.is_empty());
    assert_eq!(w.despawned, vec![("east".to_string(), 2)]);
    w.player.x = 0;
    w.go(Direction::Left).unwrap();
    w.go(Direction::Right).unwrap();
    assert!(w.entities.is_empty());
}

#[test]
fn an_entrance_leads_into_a_town() {
    let mut fields = Sector::new(&roads(), "fields", Vec::new(), [None, None, None, None]);
    fields.entrance(6, 5, "village");
    let village = Sector::town(&roads(), "village", Vec::new(), "fields", 6, 5);
    let mut w = World::new(5, 5, vec![fields, village], "fields");
    w.player.hunger = 7;
    w.player.thirst = 8;
    w.player.health = 2;
    assert_eq!(w.go(Direction::Right), Ok(GoodResult::Proceed));
    assert_eq!(w.map.sector().id, "village");
    assert_eq!((w.player.x, w.player.y), (0, 0));
    assert_eq!((w.player.hunger, w.player.thirst, w.player.health), (0, 0, 10));
    // leaving the town by any edge leads back to the door
    assert_eq!(w.go(Direction::Up), Ok(GoodResult::Proceed));
    assert_eq!(w.map.sector().id, "fields");
    assert_eq!((w.player.x, w.player.y), (6, 5));
}

#[test]
fn an_entrance_into_the_wild_leaves_the_counters() {
    let mut fields = Sector::new(&roads(), "fields", Vec::new(), [None, None, None, None]);
    fields.entrance(6, 5, "cave");
    let cave = Sector::new(&roads(), "cave", Vec::new(), [None, None, None, None]);
    let mut w = World::new(5, 5, vec![fields, cave], "fields");
    w.player.hunger = 7;
    w.player.thirst = 8;
    w.player.health = 2;
    assert_eq!(w.go(Direction::Right), Ok(GoodResult::Proceed));
    assert_eq!(w.map.sector().id, "cave");
    assert_eq!((w.player.x, w.player.y), (0, 0));
    assert_eq!((w.player.hunger, w.player.thirst, w.player.health), (7, 8, 2));
}

#[test]
fn walking_into_an_entity_meets_it() {
    let mut w = lone_world(&roads(), vec![Entity::new(6, 5, EntityKind::Food { food: 3 }, false), enemy(7, 5, 1, 1)]);
    w.player.hunger = 5;
    assert_eq!(w.go(Direction::Right), Ok(GoodResult::Ate(3)));
    assert_eq!(w.player.hunger, 2);
    assert_eq!(w.entities, vec![enemy(7, 5, 1, 1)]);
    assert_eq!(w.go(Direction::Right), Ok(GoodResult::WonFight(false)));
    assert!(w.entities.is_empty());
    assert_eq!(w.player.damage.get(), 1);
    assert_eq!((w.player.x, w.player.y), (7, 5));
}

#[test]
fn walking_into_a_crowd_meets_all_in_order() {
    let mut w = lone_world(
        &roads(),
        vec![enemy(6, 5, 9, 2), Entity::new(6, 5, EntityKind::Food { food: 3 }, false), enemy(6, 5, 1, 1)],
    );
    assert_eq!(w.go(Direction::Right), Ok(GoodResult::WonFight(false)));
    assert_eq!(w.entities, vec![enemy(6, 5, 8, 2)]);
    // two damage taken, two healed by the food
    assert_eq!(w.player.health, 10);
}

#[test]
fn a_deadly_meeting_ends_the_step() {
    let mut w = lone_world(&roads(), vec![enemy(6, 5, 9, 10), Entity::new(6, 5, EntityKind::Food { food: 3 }, false)]);
    assert_eq!(w.go(Direction::Right), Err(BadResult::ViolentDeath));
    assert_eq!(w.player.health, 0);
    assert_eq!(w.entities.len(), 2);
    assert!(w.entities[1].alive);
}

#[test]
fn defeating_a_guard_opens_the_way() {
    let mut w = lone_world(&with_tile(&roads(), 7, 5, b'A'), vec![guard(6, 5, 7)]);
    assert_eq!(w.go(Direction::Right), Ok(GoodResult::DefeatedBoss(7)));
    assert!(w.entities.is_empty());
    assert_eq!(w.despawned, vec![("here".to_string(), 7)]);
    assert_eq!(w.player.damage.get(), 3);
    assert_eq!(w.map.get(7, 5), Some(Tile { kind: TileKind::Grass }));
    assert_eq!(w.go(Direction::Right), Ok(GoodResult::Proceed));
}

#[test]
fn resting_heals_in_odd_turns() {
    let mut w = lone_world(&roads(), Vec::new());
    w.player.health = 5;
    assert_eq!(w.engage(), Ok(GoodResult::Proceed));
    assert_eq!(w.player.health, 5);
    w.turn = 1;
    assert_eq!(w.interact(), Ok(GoodResult::Proceed));
    assert_eq!(w.player.health, 6);
    w.player.health = 10;
    assert_eq!(w.engage(), Ok(GoodResult::Proceed));
    assert_eq!(w.player.health, 10);
}

#[test]
fn bending_down_meets_the_first_entity_on_the_tile() {
    let mut w = lone_world(
        &roads(),
        vec![enemy(1, 1, 5, 1), enemy(5, 5, 5, 1), Entity::new(5, 5, EntityKind::Food { food: 3 }, false)],
    );
    assert_eq!(w.engage(), Ok(GoodResult::Fight(1, 4)));
    assert_eq!(w.entities.len(), 3);
    w.player.damage = Stat::of(4);
    assert_eq!(w.engage(), Ok(GoodResult::WonFight(false)));
    assert_eq!(w.entities.len(), 2);
    assert_eq!(w.engage(), Ok(GoodResult::Ate(3)));
    assert_eq!(w.entities, vec![enemy(1, 1, 5, 1)]);
}

#[test]
fn a_won_fight_may_raise_the_damage() {
    use_reward();
}

fn use_reward() {
    let mut w = lone_world(&roads(), Vec::new());
    // 40 hundredths of 2^24 is 6710886.4
    assert_eq!(w.reward(Ok(GoodResult::WonFight(false)), 6710886), Ok(GoodResult::WonFight(true)));
    assert_eq!(w.player.damage.get(), 2);
    assert_eq!(w.reward(Ok(GoodResult::WonFight(false)), 6710887), Ok(GoodResult::WonFight(false)));
    assert_eq!(w.player.damage.get(), 2);
    assert_eq!(w.reward(Ok(GoodResult::Ate(3)), 0), Ok(GoodResult::Ate(3)));
    assert_eq!(w.reward(Ok(GoodResult::DefeatedBoss(3)), 0), Ok(GoodResult::DefeatedBoss(3)));
    assert_eq!(w.reward(Err(BadResult::ViolentDeath), 0), Err(BadResult::ViolentDeath));
    assert_eq!(w.player.damage.get(), 2);
}

#[test]
fn winning_by_bending_down_rewards_now_and_then() {
    let (mut plain, mut upgraded) = (0, 0);
    for _ in 0..300 {
        let mut w = lone_world(&roads(), vec![enemy(5, 5, 1, 1)]);
        match w.interact() {
            Ok(GoodResult::WonFight(true)) => {
                assert_eq!(w.player.damage.get(), 2);
                upgraded += 1;
            }
            Ok(GoodResult::WonFight(false)) => {
                assert_eq!(w.player.damage.get(), 1);
                plain += 1;
            }
            other => panic!("unexpected outcome {:?}", other),
        }
        assert!(w.entities.is_empty());
    }
    assert!(plain > 100 && upgraded > 60);
}

#[test]
fn hunger_and_thirst_grow_on_schedule() {
    let mut w = lone_world(&roads(), Vec::new());
    for turn in 1..=24u32 {
        assert_eq!(w.survival_tick(), Ok(false));
        assert_eq!(w.turn, turn);
        assert_eq!(w.player.hunger, turn / 8);
        assert_eq!(w.player.thirst, turn / 6);
    }
    assert_eq!(w.player.health, 10);
}

#[test]
fn a_town_suspends_hunger_and_thirst() {
    let town = Sector::town(&roads(), "town", Vec::new(), "town", 1, 1);
    let mut w = World::new(5, 5, vec![town], "town");
    for _ in 0..48 {
        assert_eq!(w.survival_tick(), Ok(false));
    }
    assert_eq!((w.player.hunger, w.player.thirst), (0, 0));
    assert_eq!(w.turn, 48);
}

#[test]
fn thirst_above_the_cap_costs_health_until_death() {
    let mut w = lone_world(&roads(), Vec::new());
    w.player.thirst = 11;
    w.player.health = 3;
    assert_eq!(w.survival_tick(), Ok(true));
    assert_eq!(w.player.health, 2);
    assert_eq!(w.survival_tick(), Ok(true));
    assert_eq!(w.survival_tick(), Err(BadResult::ThirstDeath));
    assert_eq!(w.player.health, 0);
    // thirst does not grow beyond one above the cap
    assert_eq!(w.player.thirst, 11);
}

#[test]
fn hunger_above_the_cap_kills_at_once() {
    let mut w = lone_world(&roads(), Vec::new());
    w.player.hunger = 11;
    assert_eq!(w.survival_tick(), Err(BadResult::HungerDeath));
    assert_eq!(w.player.health, 10);
}

#[test]
fn hunger_is_held_against_its_own_cap() {
    let mut w = lone_world(&roads(), Vec::new());
    w.player.hunger_cap = Stat::of(20);
    w.player.hunger = 15;
    assert_eq!(w.survival_tick(), Ok(false));
    w.player.hunger_cap = Stat::of(5);
    w.player.thirst_cap = Stat::of(20);
    w.player.hunger = 6;
    assert_eq!(w.survival_tick(), Err(BadResult::HungerDeath));
}

#[test]
fn thirst_comes_before_hunger() {
    let mut w = lone_world(&roads(), Vec::new());
    w.player.hunger = 11;
    w.player.thirst = 11;
    assert_eq!(w.survival_tick(), Ok(true));
    assert_eq!(w.player.health, 9);
    w.player.health = 1;
    assert_eq!(w.survival_tick(), Err(BadResult::ThirstDeath));
}

#[test]
fn a_player_at_the_hunger_cap_starves_after_the_interval() {
    // nothing can spawn on roads, so nothing but hunger can happen
    let mut w = lone_world(&roads(), Vec::new());
    w.player.hunger = w.player.hunger_cap.get();
    let mut deaths = 0;
    for turn in 1..=HUNGER_INTERVAL {
        match w.update() {
            Ok(report) => {
                assert!(turn < HUNGER_INTERVAL);
                assert!(!report.thirst_damage);
                assert!(report.outcomes.is_empty());
                assert!(!report.spawned);
            }
            Err(bad) => {
                assert_eq!(bad, BadResult::HungerDeath);
                assert_eq!(turn, HUNGER_INTERVAL);
                deaths += 1;
            }
        }
    }
    assert_eq!(deaths, 1);
    assert_eq!(w.turn, HUNGER_INTERVAL);
    assert_eq!(w.player.hunger, w.player.hunger_cap.get() + 1);
}

#[test]
fn a_turn_lets_entities_move_and_spawn() {
    let mut w = lone_world(&land(&"_".repeat(WIDTH)), vec![enemy(15, 10, 5, 1), guard(20, 10, 7)]);
    w.turn = 100;
    let mut most = 0;
    for _ in 0..30 {
        let before = w.entities.len();
        let cap = {
            w.turn += 1;
            let cap = w.max_entities() as usize;
            w.turn -= 1;
            cap
        };
        match w.update() {
            Ok(report) => {
                assert!(w.entities.len() <= before + 1);
                assert!(w.entities.len() <= before.max(cap));
                if !report.spawned {
                    assert!(w.entities.len() <= before);
                }
                for e in &w.entities {
                    assert!(e.alive);
                    assert!((e.x as usize) < WIDTH && (e.y as usize) < HEIGHT);
                }
                for outcome in &report.outcomes {
                    assert!(matches!(outcome, GoodResult::Fight(_, _) | GoodResult::WonFight(false)));
                }
                most = most.max(w.entities.len());
                w.player.health = 10;
                w.player.hunger = 0;
                w.player.thirst = 0;
            }
            Err(bad) => {
                assert_eq!(bad, BadResult::ViolentDeath);
                w.player.health = 10;
            }
        }
        // the guard never moves
        assert!(w.entities.iter().any(|e| e.id() == Some(7) && (e.x, e.y) == (20, 10)));
    }
    assert!(most > 2);
    assert_eq!(w.turn, 130);
}

#[test]
fn entities_take_their_turn_on_a_snapshot() {
    let mut w = lone_world(&land(&"_".repeat(WIDTH)), vec![enemy(15, 10, 5, 1), enemy(16, 10, 5, 1)]);
    for _ in 0..20 {
        let before: Vec<(u32, u32)> = w.entities.iter().map(|e| (e.x, e.y)).collect();
        let outcomes = w.entity_tick().unwrap();
        assert_eq!(w.entities.len(), 2);
        for (e, old) in w.entities.iter().zip(before.iter()) {
            let d = (e.x as i64 - old.0 as i64).abs() + (e.y as i64 - old.1 as i64).abs();
            assert!(d <= 1);
            // no enemy steps onto a tile that an entity stood on before the sweep
            if d == 1 {
                assert!(!before.contains(&(e.x, e.y)));
            }
        }
        assert!(outcomes.len() <= 2);
        w.player.health = 10;
    }
}

#[test]
fn the_world_stays_well_formed() {
    let mut w = two_sectors();
    assert!(w.check());
    w.turn = 100;
    for step in 0..200u32 {
        let direction = [Direction::Right, Direction::Up, Direction::Left, Direction::Down][(step % 4) as usize];
        let _ = w.go(direction);
        assert!(w.check());
        let _ = w.interact();
        assert!(w.check());
        let _ = w.update();
        assert!(w.check());
        w.player.health = w.player.max_health.get();
        w.player.hunger = 0;
        w.player.thirst = 0;
    }
}

#[test]
fn a_broken_world_is_found() {
    let mut w = two_sectors();
    w.player.x = WIDTH as u32;
    assert!(!w.check());
    let mut w = two_sectors();
    w.entities.push(guard(3, 3, 1));
    assert!(!w.check());
    let mut w = two_sectors();
    w.despawned.push(("nowhere".to_string(), 1));
    assert!(!w.check());
    let mut w = two_sectors();
    w.difficulty = Difficulty::new().food_mul(Factor { num: 1, den: 0 });
    assert!(!w.check());
    let mut w = two_sectors();
    w.map.current = 2;
    assert!(!w.check());
    let mut w = two_sectors();
    w.map.sectors[0].tiles[0][0] = Tile { kind: TileKind::Water };
    assert!(!w.map.check());
    w.map.sectors[0].changed.push((0, 0));
    assert!(w.map.check());
    w.map.baseline.pop();
    assert!(!w.map.check());
}

fn tries(directions: Vec<Direction>) -> Draw {
    Draw { impulse: 0, directions }
}

#[test]
fn no_entity_sees_where_another_has_moved_to() {
    let mut w = lone_world(&land(&"_".repeat(WIDTH)), vec![enemy(15, 10, 5, 1), enemy(16, 10, 5, 1)]);
    // the first wants to go right, where the second stands; the second
    // wants to go left, where the first stood when the round began
    let draws = vec![tries(vec![Direction::Right, Direction::Up]), tries(vec![Direction::Left, Direction::Down])];
    assert_eq!(w.entity_tick_with(&draws), Ok(Vec::new()));
    assert_eq!(w.entities, vec![enemy(15, 9, 5, 1), enemy(16, 11, 5, 1)]);
    // two entities may end a round on one tile
    let draws = vec![tries(vec![Direction::Down]), tries(vec![Direction::Up, Direction::Left])];
    let mut w = lone_world(&land(&"_".repeat(WIDTH)), vec![enemy(15, 10, 5, 1), enemy(16, 11, 5, 1)]);
    assert_eq!(w.entity_tick_with(&draws), Ok(Vec::new()));
    assert_eq!(w.entities, vec![enemy(15, 11, 5, 1), enemy(16, 10, 5, 1)]);
}

#[test]
fn meetings_in_a_round_are_collected_in_order() {
    let mut w = lone_world(
        &land(&"_".repeat(WIDTH)),
        vec![enemy(4, 5, 9, 2), Entity::new(9, 9, EntityKind::Food { food: 1 }, false), enemy(5, 4, 1, 1), guard(6, 5, 3)],
    );
    let draws = vec![
        tries(vec![Direction::Right]),
        tries(vec![Direction::Left]),
        tries(vec![Direction::Down]),
        tries(vec![Direction::Left]),
    ];
    assert_eq!(w.entity_tick_with(&draws), Ok(vec![GoodResult::Fight(2, 8), GoodResult::WonFight(false)]));
    assert_eq!(
        w.entities,
        vec![enemy(5, 5, 8, 2), Entity::new(8, 9, EntityKind::Food { food: 1 }, false), guard(6, 5, 3)]
    );
    assert_eq!(w.player.health, 8);
    assert!(w.despawned.is_empty());
}

#[test]
fn a_deadly_attack_ends_the_round() {
    let mut w = lone_world(&land(&"_".repeat(WIDTH)), vec![enemy(10, 10, 5, 1), enemy(4, 5, 9, 10), enemy(12, 12, 5, 1)]);
    let draws = vec![tries(vec![Direction::Up]), tries(vec![Direction::Right]), tries(vec![Direction::Up])];
    assert_eq!(w.entity_tick_with(&draws), Err(BadResult::ViolentDeath));
    assert_eq!(w.player.health, 0);
    assert_eq!(w.entities, vec![enemy(10, 10, 5, 1), enemy(4, 5, 9, 10), enemy(12, 12, 5, 1)]);
}

#[test]
fn a_turn_follows_what_was_drawn_for_it() {
    let mut w = lone_world(&land(&"_".repeat(WIDTH)), vec![enemy(10, 10, 5, 1)]);
    w.turn = 7;
    w.player.hunger = 3;
    let report = w.update_with(&vec![tries(vec![Direction::Left])], 0, 0).unwrap();
    assert_eq!(w.turn, 8);
    assert_eq!(w.player.hunger, 4);
    assert!(!report.thirst_damage);
    assert!(report.outcomes.is_empty());
    assert!(report.spawned);
    assert_eq!(w.entities.len(), 2);
    assert_eq!(w.entities[0], enemy(9, 10, 5, 1));
    assert!(matches!(w.entities[1].kind, EntityKind::Food { .. }));
    let report = w.update_with(&vec![tries(Vec::new()), tries(Vec::new())], 0, UNIT - 1).unwrap();
    assert!(report.spawned);
    assert!(matches!(w.entities[2].kind, EntityKind::Enemy { .. }));
    let report = w.update_with(&vec![tries(Vec::new()), tries(Vec::new()), tries(Vec::new())], UNIT - 1, 0).unwrap();
    assert!(!report.spawned);
    assert_eq!(w.entities.len(), 3);
    assert_eq!(w.turn, 10);
}

#[test]
fn a_turn_ends_with_the_first_death() {
    let mut w = lone_world(&land(&"_".repeat(WIDTH)), vec![enemy(4, 5, 9, 10)]);
    w.player.hunger = 11;
    assert_eq!(w.update_with(&vec![tries(vec![Direction::Right])], 0, 0).unwrap_err(), BadResult::HungerDeath);
    assert_eq!(w.entities, vec![enemy(4, 5, 9, 10)]);
    assert_eq!(w.player.health, 10);
    assert_eq!(w.turn, 1);
    w.player.hunger = 0;
    assert_eq!(w.update_with(&vec![tries(vec![Direction::Right])], 0, 0).unwrap_err(), BadResult::ViolentDeath);
    assert_eq!(w.entities.len(), 1);
    assert_eq!(w.turn, 2);
}
