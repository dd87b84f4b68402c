use frob_adventure::difficulty::Difficulty;
use frob_adventure::entity::{Entity, EntityKind};
use frob_adventure::input::{
    decode, handle, settle, step, BadResult, Command, GoodResult, Input, Key, Reply, Step, TurnResult,
};
use frob_adventure::map::{Direction, Tile, TileKind};
use frob_adventure::player::Player;
use frob_adventure::save::SaveData;
use frob_adventure::sector::{Sector, HEIGHT, WIDTH};
use frob_adventure::world::World;

fn paved() -> World {
    let text = vec!["=".repeat(WIDTH); HEIGHT].join("\n");
    let mut sector = Sector::new(&text, "here", Vec::new(), [None, None, None, None]);
    sector.save_entities(vec![Entity::new(6, 5, EntityKind::Food { food: 3 }, false)]);
    World::new(5, 5, vec![sector], "here")
}

fn done(reply: Reply) -> Result<GoodResult, BadResult> {
    match reply {
        Reply::Done(outcome) => outcome,
        other => panic!("the step is not done: {:?}", other),
    }
}

#[test]
fn keys_stand_for_commands() {
    assert_eq!(decode(None), Command::NoKey);
    assert_eq!(decode(Some(Key::ArrowUp)), Command::Go(Direction::Up));
    assert_eq!(decode(Some(Key::ArrowDown)), Command::Go(Direction::Down));
    assert_eq!(decode(Some(Key::ArrowLeft)), Command::Go(Direction::Left));
    assert_eq!(decode(Some(Key::ArrowRight)), Command::Go(Direction::Right));
    assert_eq!(decode(Some(Key::Char('q'))), Command::Quit);
    assert_eq!(decode(Some(Key::Char('\x04'))), Command::Quit);
    assert_eq!(decode(Some(Key::Char(' '))), Command::Interact);
    assert_eq!(decode(Some(Key::Char('s'))), Command::Save);
    assert_eq!(decode(Some(Key::Char('l'))), Command::Load);
    assert_eq!(decode(Some(Key::Char('i'))), Command::Inventory);
    assert_eq!(decode(Some(Key::Char('d'))), Command::Difficulty);
    assert_eq!(decode(Some(Key::Char('Q'))), Command::Invalid(Key::Char('Q')));
    assert_eq!(decode(Some(Key::Escape)), Command::Invalid(Key::Escape));
    assert_eq!(decode(Some(Key::Enter)), Command::Invalid(Key::Enter));
    assert_eq!(decode(Some(Key::Other)), Command::Invalid(Key::Other));
}

#[test]
fn arrows_move_the_player() {
    let mut w = paved();
    assert_eq!(done(handle(&mut w, Input::Key(Some(Key::ArrowUp)))), Ok(GoodResult::Proceed));
    assert_eq!((w.player.x, w.player.y), (5, 4));
    assert_eq!(done(handle(&mut w, Input::Key(Some(Key::ArrowDown)))), Ok(GoodResult::Proceed));
    w.player.hunger = 4;
    assert_eq!(done(handle(&mut w, Input::Key(Some(Key::ArrowRight)))), Ok(GoodResult::Ate(3)));
    assert_eq!(w.player.hunger, 1);
}

#[test]
fn a_blank_interacts() {
    let mut w = paved();
    w.turn = 1;
    w.player.health = 5;
    assert_eq!(done(handle(&mut w, Input::Key(Some(Key::Char(' '))))), Ok(GoodResult::Proceed));
    assert_eq!(w.player.health, 6);
}

#[test]
fn quitting_ends_the_session() {
    let mut w = paved();
    assert_eq!(done(handle(&mut w, Input::Key(Some(Key::Char('q'))))), Err(BadResult::Quit));
}

#[test]
fn other_keys_are_reported() {
    let mut w = paved();
    assert_eq!(done(handle(&mut w, Input::Key(None))), Ok(GoodResult::NoKey));
    assert_eq!(
        done(handle(&mut w, Input::Key(Some(Key::Char('x'))))),
        Ok(GoodResult::InvalidKey(Key::Char('x')))
    );
    assert_eq!((w.player.x, w.player.y), (5, 5));
}

#[test]
fn requests_are_handed_to_the_outside() {
    let mut w = paved();
    w.map.set(1, 1, Tile { kind: TileKind::Hill });
    match handle(&mut w, Input::Key(Some(Key::Char('s')))) {
        Reply::Save(data) => {
            assert_eq!(data.current_sector, "here");
            assert_eq!(data.tile_changes, vec![("here".to_string(), vec![(1, 1, Tile { kind: TileKind::Hill })])]);
        }
        other => panic!("not a save: {:?}", other),
    }
    assert!(matches!(handle(&mut w, Input::Key(Some(Key::Char('l')))), Reply::Load));
    assert!(matches!(handle(&mut w, Input::Key(Some(Key::Char('i')))), Reply::Inventory));
    assert!(matches!(handle(&mut w, Input::Key(Some(Key::Char('d')))), Reply::Difficulty));
}

#[test]
fn what_the_outside_did_is_reported() {
    let mut w = paved();
    assert_eq!(done(handle(&mut w, Input::Saved(true))), Ok(GoodResult::Saved));
    assert_eq!(done(handle(&mut w, Input::Saved(false))), Ok(GoodResult::Proceed));
    assert_eq!(done(handle(&mut w, Input::Loaded(None))), Ok(GoodResult::Proceed));
    assert_eq!(done(handle(&mut w, Input::InventoryClosed)), Ok(GoodResult::Menued));
}

#[test]
fn a_loaded_save_is_restored_if_it_fits() {
    let mut w = paved();
    let good = SaveData {
        player: Player { x: 1, y: 2, health: 3, ..Player::default() },
        current_sector: "here".to_string(),
        tile_changes: Vec::new(),
        despawned: Vec::new(),
    };
    assert_eq!(done(handle(&mut w, Input::Loaded(Some(good)))), Ok(GoodResult::Loaded));
    assert_eq!((w.player.x, w.player.y, w.player.health), (1, 2, 3));
    let bad = SaveData {
        player: Player::default(),
        current_sector: "there".to_string(),
        tile_changes: Vec::new(),
        despawned: Vec::new(),
    };
    assert_eq!(done(handle(&mut w, Input::Loaded(Some(bad)))), Ok(GoodResult::Proceed));
    assert_eq!((w.player.x, w.player.y, w.player.health), (1, 2, 3));
}

#[test]
fn a_named_difficulty_is_set() {
    let mut w = paved();
    assert_eq!(done(handle(&mut w, Input::DifficultyNamed(Some("hard".to_string())))), Ok(GoodResult::Menued));
    assert_eq!(w.difficulty, Difficulty::hard());
    assert_eq!(
        done(handle(&mut w, Input::DifficultyNamed(Some("nightmare".to_string())))),
        Ok(GoodResult::Menued)
    );
    assert_eq!(w.difficulty, Difficulty::hard());
    assert_eq!(done(handle(&mut w, Input::DifficultyNamed(None))), Ok(GoodResult::Menued));
    assert_eq!(w.difficulty, Difficulty::hard());
    assert_eq!(done(handle(&mut w, Input::DifficultyNamed(Some("easy".to_string())))), Ok(GoodResult::Menued));
    assert_eq!(w.difficulty, Difficulty::easy());
}

#[test]
fn outcomes_become_results() {
    assert_eq!(TurnResult::from(GoodResult::WaterMove), Ok(GoodResult::WaterMove));
    assert_eq!(TurnResult::from(BadResult::Quit), Err(BadResult::Quit));
    let r: TurnResult = GoodResult::Ate(3).into();
    assert_eq!(r, Ok(GoodResult::Ate(3)));
}

#[test]
fn a_fatal_outcome_ends_the_session_before_any_tick() {
    let mut w = paved();
    w.turn = 7;
    w.player.hunger = 10;
    w.player.thirst = 11;
    let before = (w.turn, w.player.clone(), w.entities.clone());
    for bad in [BadResult::Quit, BadResult::ViolentDeath, BadResult::HungerDeath, BadResult::ThirstDeath] {
        assert!(matches!(settle(&mut w, Err(bad)), Step::Ended(b) if b == bad));
        assert_eq!((w.turn, w.player.clone(), w.entities.clone()), before);
    }
    assert!(matches!(step(&mut w, Input::Key(Some(Key::Char('q')))), Step::Ended(BadResult::Quit)));
    assert_eq!((w.turn, w.player.clone(), w.entities.clone()), before);
}

#[test]
fn an_outcome_to_report_asks_for_input_again() {
    let mut w = paved();
    w.turn = 7;
    let before = (w.turn, w.player.clone(), w.entities.clone());
    assert!(matches!(settle(&mut w, Ok(GoodResult::WaterMove)), Step::Again(GoodResult::WaterMove)));
    assert!(matches!(step(&mut w, Input::Key(None)), Step::Again(GoodResult::NoKey)));
    assert!(matches!(step(&mut w, Input::InventoryClosed), Step::Again(GoodResult::Menued)));
    assert!(matches!(step(&mut w, Input::Saved(true)), Step::Again(GoodResult::Saved)));
    assert_eq!((w.turn, w.player.clone(), w.entities.clone()), before);
    assert!(matches!(step(&mut w, Input::Key(Some(Key::Char('l')))), Step::Asked(Reply::Load)));
    assert!(matches!(step(&mut w, Input::Key(Some(Key::Char('s')))), Step::Asked(Reply::Save(_))));
    assert_eq!(w.turn, 7);
}

#[test]
fn only_proceeding_plays_the_turn() {
    let mut w = paved();
    w.turn = 7;
    match settle(&mut w, Ok(GoodResult::Proceed)) {
        Step::Played(report) => assert!(!report.thirst_damage),
        other => panic!("the turn was not played: {:?}", other),
    }
    assert_eq!(w.turn, 8);
    assert_eq!(w.player.hunger, 1);
    // a step onto a free tile proceeds, and the turn is played
    assert!(matches!(step(&mut w, Input::Key(Some(Key::ArrowUp))), Step::Played(_)));
    assert_eq!(w.turn, 9);
    assert_eq!((w.player.x, w.player.y), (5, 4));
    // a failed save lets the turn proceed
    assert!(matches!(step(&mut w, Input::Saved(false)), Step::Played(_)));
    assert_eq!(w.turn, 10);
    // a turn that kills ends the session
    w.player.hunger = 11;
    assert!(matches!(settle(&mut w, Ok(GoodResult::Proceed)), Step::Ended(BadResult::HungerDeath)));
    assert_eq!(w.turn, 11);
}
