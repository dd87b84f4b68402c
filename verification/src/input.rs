//! Keys, the outcomes of a turn, and the handling of one input.

use vstd::prelude::*;
use crate::chance::UNIT;
use crate::difficulty::Difficulty;
use crate::map::Direction;
use crate::save::{exported, SaveData};
use crate::entity::DrawView;
use crate::world::{TurnReport, World, WorldView};

verus! {

/// A key as the simulation sees it.
#[derive(Debug, Clone, Copy, PartialEq, Eq, Hash, Structural)]
pub enum Key {
    ArrowUp,
    ArrowDown,
    ArrowLeft,
    ArrowRight,
    Escape,
    Enter,
    Char(char),
    /// Any key that none of the others stands for.
    Other,
}

/// The mathematical value of an outcome that lets the session go on.
pub enum GoodView {
    Proceed,
    NoKey,
    InvalidKey(Key),
    Fight(u32, u32),
    WonFight(bool),
    DefeatedBoss(u32),
    InvalidMove(Direction),
    PickedUpItem(Seq<char>),
    Saved,
    Loaded,
    Menued,
    WaterMove,
    Ate(u32),
}

/// An outcome that lets the session go on. Only `Proceed` lets the turn
/// advance; every other outcome is reported, and the same turn asks for input
/// again.
#[derive(Debug, Clone, PartialEq, Eq, Hash)]
pub enum GoodResult {
    /// Nothing to report.
    Proceed,
    /// No key was read.
    NoKey,
    /// The key stands for no command.
    InvalidKey(Key),
    /// A fight goes on: the damage the player took, and the health the
    /// enemy has left.
    Fight(u32, u32),
    /// The player killed an enemy; the flag says whether the player's
    /// damage grew.
    WonFight(bool),
    /// The player killed the boss with this identifier.
    DefeatedBoss(u32),
    /// The player cannot move in this direction.
    InvalidMove(Direction),
    /// The player picked up the item of this name.
    PickedUpItem(String),
    Saved,
    Loaded,
    /// A menu or a dialogue was shown.
    Menued,
    /// The player drank.
    WaterMove,
    /// The player ate this much food.
    Ate(u32),
}

impl View for GoodResult {
    type V = GoodView;

    open spec fn view(&self) -> GoodView {
        match *self {
            GoodResult::Proceed => GoodView::Proceed,
            GoodResult::NoKey => GoodView::NoKey,
            GoodResult::InvalidKey(k) => GoodView::InvalidKey(k),
            GoodResult::Fight(d, h) => GoodView::Fight(d, h),
            GoodResult::WonFight(u) => GoodView::WonFight(u),
            GoodResult::DefeatedBoss(id) => GoodView::DefeatedBoss(id),
            GoodResult::InvalidMove(d) => GoodView::InvalidMove(d),
            GoodResult::PickedUpItem(name) => GoodView::PickedUpItem(name@),
            GoodResult::Saved => GoodView::Saved,
            GoodResult::Loaded => GoodView::Loaded,
            GoodResult::Menued => GoodView::Menued,
            GoodResult::WaterMove => GoodView::WaterMove,
            GoodResult::Ate(f) => GoodView::Ate(f),
        }
    }
}

impl DeepView for GoodResult {
    type V = GoodView;

    open spec fn deep_view(&self) -> GoodView {
        self@
    }
}

/// An outcome that ends the session.
#[derive(Debug, Clone, Copy, PartialEq, Eq, Hash, Structural)]
pub enum BadResult {
    HungerDeath,
    ThirstDeath,
    ViolentDeath,
    Quit,
}

/// The outcome of a step of the simulation.
pub type TurnResult = Result<GoodResult, BadResult>;

impl From<GoodResult> for TurnResult {
    /// An outcome that lets the session go on.
    fn from(res: GoodResult) -> (r: TurnResult) {
        Ok(res)
    }
}

impl vstd::std_specs::convert::FromSpecImpl<GoodResult> for TurnResult {
    open spec fn obeys_from_spec() -> bool {
        true
    }

    open spec fn from_spec(res: GoodResult) -> TurnResult {
        Ok(res)
    }
}

impl From<BadResult> for TurnResult {
    /// An outcome that ends the session.
    fn from(res: BadResult) -> (r: TurnResult) {
        Err(res)
    }
}

impl vstd::std_specs::convert::FromSpecImpl<BadResult> for TurnResult {
    open spec fn obeys_from_spec() -> bool {
        true
    }

    open spec fn from_spec(res: BadResult) -> TurnResult {
        Err(res)
    }
}

/// The mathematical value of a step's outcome.
pub type TurnView = Result<GoodView, BadResult>;

/// The value of a step's outcome.
pub open spec fn turn_view(r: TurnResult) -> TurnView {
    match r {
        Ok(good) => Ok(good@),
        Err(bad) => Err(bad),
    }
}

/// What a key asks for.
#[derive(Debug, Clone, Copy, PartialEq, Eq, Hash, Structural)]
pub enum Command {
    /// Move the player one step.
    Go(Direction),
    /// Bend down to the tile the player stands on.
    Interact,
    /// End the session.
    Quit,
    /// Save the session.
    Save,
    /// Restore a saved session.
    Load,
    /// Show the inventory.
    Inventory,
    /// Choose a difficulty.
    Difficulty,
    /// The key stands for no command.
    Invalid(Key),
    /// No key was read.
    NoKey,
}

/// What a key asks for: the arrows move, a blank interacts, `q` and
/// Control-D quit, `s` saves, `l` loads, `i` shows the inventory and `d`
/// chooses a difficulty.
pub open spec fn spec_decode(key: Option<Key>) -> Command {
    match key {
        None => Command::NoKey,
        Some(Key::ArrowUp) => Command::Go(Direction::Up),
        Some(Key::ArrowDown) => Command::Go(Direction::Down),
        Some(Key::ArrowLeft) => Command::Go(Direction::Left),
        Some(Key::ArrowRight) => Command::Go(Direction::Right),
        Some(Key::Char(c)) => if c == 'q' || c == '\x04' {
            Command::Quit
        } else if c == ' ' {
            Command::Interact
        } else if c == 's' {
            Command::Save
        } else if c == 'l' {
            Command::Load
        } else if c == 'i' {
            Command::Inventory
        } else if c == 'd' {
            Command::Difficulty
        } else {
            Command::Invalid(Key::Char(c))
        },
        Some(other) => Command::Invalid(other),
    }
}

/// What a key asks for.
pub fn decode(key: Option<Key>) -> (r: Command)
    ensures
        r == spec_decode(key),
{
    match key {
        None => Command::NoKey,
        Some(Key::ArrowUp) => Command::Go(Direction::Up),
        Some(Key::ArrowDown) => Command::Go(Direction::Down),
        Some(Key::ArrowLeft) => Command::Go(Direction::Left),
        Some(Key::ArrowRight) => Command::Go(Direction::Right),
        Some(Key::Char(c)) => {
            if c == 'q' || c == '\x04' {
                Command::Quit
            } else if c == ' ' {
                Command::Interact
            } else if c == 's' {
                Command::Save
            } else if c == 'l' {
                Command::Load
            } else if c == 'i' {
                Command::Inventory
            } else if c == 'd' {
                Command::Difficulty
            } else {
                Command::Invalid(Key::Char(c))
            }
        },
        Some(other) => Command::Invalid(other),
    }
}

/// One input to the simulation: a key, or what the outside has done for a
/// command that needed it.
#[derive(Debug)]
pub enum Input {
    /// A key was read, or none.
    Key(Option<Key>),
    /// The session was written out, or could not be.
    Saved(bool),
    /// A saved session was read, or none could be.
    Loaded(Option<SaveData>),
    /// The inventory was shown and closed.
    InventoryClosed,
    /// A difficulty was named in lower case, or no name was read.
    DifficultyNamed(Option<String>),
}

/// What the simulation answers to an input: the outcome of the step, or
/// what the outside is to do before it hands in the next input.
#[derive(Debug)]
pub enum Reply {
    /// The step is done, with this outcome.
    Done(TurnResult),
    /// Write this save out, then hand in `Input::Saved`.
    Save(SaveData),
    /// Read a save, then hand in `Input::Loaded`.
    Load,
    /// Show the inventory, then hand in `Input::InventoryClosed`.
    Inventory,
    /// Ask for a difficulty, then hand in `Input::DifficultyNamed`.
    Difficulty,
}

/// Whether `after` and `reply` are what an input leads to from the world
/// `before`.
///
/// A key that moves or interacts does so, and the step is done with the
/// outcome of that. A key that quits ends the session. A key that asks for
/// saving, loading, the inventory or a difficulty is answered with the
/// request to the outside, and the world stays as it is. A session that was
/// written out is reported as saved; one that could not be written lets
/// the turn proceed. A save that was read is restored if it fits and
/// reported as loaded; otherwise the turn proceeds. A closed inventory is
/// reported as a menu. A named difficulty becomes the world's if the name
/// is one of the levels, and is reported as a menu either way.
pub open spec fn handled(before: WorldView, input: Input, after: WorldView, reply: Reply) -> bool {
    match input {
        Input::Key(key) => match spec_decode(key) {
            Command::Go(direction) => (reply matches Reply::Done(outcome) && (after, turn_view(outcome)) == before.go(
                direction,
            )),
            Command::Interact => (reply matches Reply::Done(outcome) && exists|sample: u32|
                sample < UNIT && (after, turn_view(outcome)) == #[trigger] before.engaged().0.rewarded(
                    before.engaged().1,
                    sample,
                )),
            Command::Quit => after == before && (reply matches Reply::Done(Err(BadResult::Quit))),
            Command::Save => after == before && (reply matches Reply::Save(data) && data@ == exported(before)),
            Command::Load => after == before && reply is Load,
            Command::Inventory => after == before && reply is Inventory,
            Command::Difficulty => after == before && reply is Difficulty,
            Command::Invalid(pressed) => after == before && (reply matches Reply::Done(
                Ok(GoodResult::InvalidKey(k)),
            ) && k == pressed),
            Command::NoKey => after == before && (reply matches Reply::Done(Ok(GoodResult::NoKey))),
        },
        Input::Saved(written) => after == before && (if written {
            reply matches Reply::Done(Ok(GoodResult::Saved))
        } else {
            reply matches Reply::Done(Ok(GoodResult::Proceed))
        }),
        Input::Loaded(Some(data)) => if data@.fits(before.map.baseline) {
            after == before.restored(data@) && (reply matches Reply::Done(Ok(GoodResult::Loaded)))
        } else {
            after == before && (reply matches Reply::Done(Ok(GoodResult::Proceed)))
        },
        Input::Loaded(None) => after == before && (reply matches Reply::Done(Ok(GoodResult::Proceed))),
        Input::InventoryClosed => after == before && (reply matches Reply::Done(Ok(GoodResult::Menued))),
        Input::DifficultyNamed(name) => (reply matches Reply::Done(Ok(GoodResult::Menued))) && after == (WorldView {
            difficulty: match name {
                Some(text) => match Difficulty::spec_named(text@) {
                    Some(level) => level,
                    None => before.difficulty,
                },
                None => before.difficulty,
            },
            ..before
        }),
    }
}

/// Resolves one input: see `handled`.
pub fn handle(world: &mut World, input: Input) -> (r: Reply)
    requires
        old(world)@.wf(),
    ensures
        final(world)@.wf(),
        handled(old(world)@, input, final(world)@, r),
{
    match input {
        Input::Key(key) => match decode(key) {
            Command::Go(direction) => Reply::Done(world.go(direction)),
            Command::Interact => Reply::Done(world.interact()),
            Command::Quit => Reply::Done(Err(BadResult::Quit)),
            Command::Save => Reply::Save(SaveData::from(world)),
            Command::Load => Reply::Load,
            Command::Inventory => Reply::Inventory,
            Command::Difficulty => Reply::Difficulty,
            Command::Invalid(pressed) => Reply::Done(Ok(GoodResult::InvalidKey(pressed))),
            Command::NoKey => Reply::Done(Ok(GoodResult::NoKey)),
        },
        Input::Saved(written) => {
            if written {
                Reply::Done(Ok(GoodResult::Saved))
            } else {
                Reply::Done(Ok(GoodResult::Proceed))
            }
        },
        Input::Loaded(found) => match found {
            Some(data) => {
                if data.apply(world) {
                    Reply::Done(Ok(GoodResult::Loaded))
                } else {
                    Reply::Done(Ok(GoodResult::Proceed))
                }
            },
            None => Reply::Done(Ok(GoodResult::Proceed)),
        },
        Input::InventoryClosed => Reply::Done(Ok(GoodResult::Menued)),
        Input::DifficultyNamed(name) => {
            match name {
                Some(text) => match Difficulty::named(text.as_str()) {
                    Some(level) => {
                        world.difficulty = level;
                    },
                    None => {},
                },
                None => {},
            }
            Reply::Done(Ok(GoodResult::Menued))
        },
    }
}

/// What a step of the session comes to.
#[derive(Debug)]
pub enum Step {
    /// The session is over. Nothing more happens in the world.
    Ended(BadResult),
    /// The turn has not advanced: report this outcome and ask for input
    /// again.
    Again(GoodResult),
    /// The outside is asked for work; hand in what comes of it.
    Asked(Reply),
    /// The turn was played, with this to report.
    Played(TurnReport),
}

/// What a played turn came to, for a step that played or ended one.
pub open spec fn turn_of(step: Step) -> Result<TurnReport, BadResult> {
    match step {
        Step::Played(report) => Ok(report),
        Step::Ended(bad) => Err(bad),
        _ => Err(BadResult::Quit),
    }
}

/// Whether `after` and `step` are what the outcome of an input leads to
/// from the world `before`.
///
/// A fatal outcome ends the session at once: the world stays as it is, the
/// turn counter does not advance, and neither hunger and thirst nor the
/// entities nor a spawn have their turn. An outcome other than `Proceed`
/// is to be reported, and input asked for again; the world stays as it
/// is. Only `Proceed` lets the turn be played: see `WorldView::played`.
pub open spec fn settles(before: WorldView, outcome: TurnResult, after: WorldView, step: Step) -> bool {
    match outcome {
        Err(bad) => after == before && (step matches Step::Ended(b) && b == bad),
        Ok(good) => if good@ == GoodView::Proceed {
            &&& step is Played || step is Ended
            &&& exists|draws: Seq<DrawView>, trigger: u32, band: u32|
                draws.len() == before.entities.len() && trigger < UNIT && band < UNIT && #[trigger] before.played(
                    draws,
                    trigger,
                    band,
                    after,
                    turn_of(step),
                )
        } else {
            after == before && (step matches Step::Again(g) && g == good)
        },
    }
}

/// Ends the session, asks for input again or plays the turn, as the
/// outcome of an input demands: see `settles`.
pub fn settle(world: &mut World, outcome: TurnResult) -> (r: Step)
    requires
        old(world)@.wf(),
    ensures
        final(world)@.wf(),
        settles(old(world)@, outcome, final(world)@, r),
{
    match outcome {
        Err(bad) => Step::Ended(bad),
        Ok(good) => {
            let proceeds = match &good {
                GoodResult::Proceed => true,
                _ => false,
            };
            if proceeds {
                match world.update() {
                    Ok(report) => Step::Played(report),
                    Err(bad) => Step::Ended(bad),
                }
            } else {
                Step::Again(good)
            }
        },
    }
}

/// Whether `after` and `step` are what a reply to an input leads to from
/// the world `before`: a request to the outside is passed on, and the
/// outcome of a step that is done is settled.
pub open spec fn follows_reply(before: WorldView, reply: Reply, after: WorldView, step: Step) -> bool {
    match reply {
        Reply::Done(outcome) => settles(before, outcome, after, step),
        _ => after == before && (step matches Step::Asked(asked) && asked == reply),
    }
}

/// Takes one step of the session: the input is resolved, and what it
/// comes to is settled. A key that quits ends the session with the world
/// as it is; so does any other fatal outcome, with the world as the input
/// left it.
pub fn step(world: &mut World, input: Input) -> (r: Step)
    requires
        old(world)@.wf(),
    ensures
        final(world)@.wf(),
        exists|mid: WorldView, reply: Reply|
            handled(old(world)@, input, mid, reply) && #[trigger] follows_reply(mid, reply, final(world)@, r),
        input matches Input::Key(key) && spec_decode(key) == Command::Quit ==> final(world)@ == old(world)@ && (
        r matches Step::Ended(BadResult::Quit)),
{
    let reply = handle(world, input);
    let ghost mid = world@;
    let ghost seen = reply;
    let r = match reply {
        Reply::Done(outcome) => settle(world, outcome),
        other => Step::Asked(other),
    };
    proof {
        assert(follows_reply(mid, seen, world@, r));
    }
    r
}

} // verus!
