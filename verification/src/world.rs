//! The world: the map, the player, the entities of the active sector, and
//! the steps of a turn.

use vstd::prelude::*;
use crate::chance::{sample, spec_within_percent, within_percent, UNIT};
use crate::difficulty::{Difficulty, Factor};
use crate::entity::{check_entities, spawn_kind_of, Band, Draw, DrawView, Entity, EntityKind, EntityView,
    all_wf, lemma_push_wf};
use crate::input::{BadResult, GoodResult, GoodView, TurnResult, TurnView, turn_view};
use crate::item::{lowered, raised};
use crate::map::{Direction, SectorMap, SectorMapView, TileKind, index_of, registered, registry_wf,
    lemma_index_of, lemma_member_registered};
use crate::player::{Player, PlayerView, Stat};
use crate::player::constants::{HUNGER_INTERVAL, THIRST_INTERVAL, INITIAL_HUNGER_CAP, INITIAL_THIRST_CAP,
    UPGRADE_PERCENT};
use crate::sector::{Sector, SectorView, HEIGHT, WIDTH, index_of_id, lemma_index_of_id};

verus! {

/// The mathematical value of a world.
pub struct WorldView {
    pub map: SectorMapView,
    pub player: PlayerView,
    pub entities: Seq<EntityView>,
    pub despawned: Seq<(Seq<char>, u32)>,
    pub turn: u32,
    pub difficulty: Difficulty,
}

/// Whether every entry of a ledger names one of `sectors`.
pub open spec fn listed(sectors: Seq<SectorView>, ledger: Seq<(Seq<char>, u32)>) -> bool {
    forall|k: int| 0 <= k < ledger.len() ==> registered(sectors, (#[trigger] ledger[k]).0)
}

/// The number of entities that a sector holds at most in a given turn: four
/// at the start, one more every twenty turns, and never more than a sixth of
/// the tiles.
pub open spec fn max_entities_at(turn: u32) -> u32 {
    let grown = 4 + turn / 20;
    let limit = (WIDTH * HEIGHT) / 6;
    if grown < limit {
        grown as u32
    } else {
        limit as u32
    }
}

/// The factor by which the chance of a spawn has grown in a given turn:
/// `1 + turn / 15`, with the numerator held at `u32::MAX`.
pub open spec fn spawn_chance_at(turn: u32) -> Factor {
    Factor { num: if turn + 15 > u32::MAX { u32::MAX } else { (turn + 15) as u32 }, den: 15 }
}

/// The entities of a list that are kept when the player leaves: those
/// marked to persist, in their order.
pub open spec fn kept(entities: Seq<EntityView>) -> Seq<EntityView>
    decreases entities.len(),
{
    if entities.len() == 0 {
        Seq::empty()
    } else if entities.last().persist {
        kept(entities.drop_last()).push(entities.last())
    } else {
        kept(entities.drop_last())
    }
}

/// The entities of a list that are alive, in their order.
pub open spec fn living(entities: Seq<EntityView>) -> Seq<EntityView>
    decreases entities.len(),
{
    if entities.len() == 0 {
        Seq::empty()
    } else if entities.last().alive {
        living(entities.drop_last()).push(entities.last())
    } else {
        living(entities.drop_last())
    }
}

/// Whether `entity` is one of the first `limit` entities of a list.
pub open spec fn among(entities: Seq<EntityView>, entity: EntityView, limit: int) -> bool {
    exists|k: int| 0 <= k < limit && k < entities.len() && #[trigger] entities[k] == entity
}

/// The entities that are kept are some of the entities: no more than there
/// were, each of them one of those that were there and marked to persist,
/// and well formed if all were.
pub proof fn lemma_kept(entities: Seq<EntityView>)
    ensures
        kept(entities).len() <= entities.len(),
        forall|i: int| 0 <= i < kept(entities).len() ==> (#[trigger] kept(entities)[i]).persist,
        forall|i: int|
            0 <= i < kept(entities).len() ==> among(entities, #[trigger] kept(entities)[i], entities.len() as int),
        all_wf(entities) ==> all_wf(kept(entities)),
    decreases entities.len(),
{
    if entities.len() > 0 {
        let front = entities.drop_last();
        let last = entities.last();
        let chosen = kept(entities);
        lemma_kept(front);
        assert forall|i: int| 0 <= i < chosen.len() implies among(
            entities,
            #[trigger] chosen[i],
            entities.len() as int,
        ) by {
            if i < kept(front).len() {
                assert(among(front, kept(front)[i], front.len() as int));
                let k = choose|k: int| 0 <= k < front.len() && k < front.len() && #[trigger] front[k] == kept(front)[i];
                assert(entities[k] == chosen[i]);
            } else {
                assert(entities[entities.len() - 1] == chosen[i]);
            }
        }
        assert forall|i: int| 0 <= i < kept(front).len() implies among(
            entities,
            #[trigger] kept(front)[i],
            entities.len() - 1,
        ) by {
            assert(among(front, kept(front)[i], front.len() as int));
            let k = choose|k: int| 0 <= k < front.len() && k < front.len() && #[trigger] front[k] == kept(front)[i];
            assert(entities[k] == kept(front)[i]);
        }
        if all_wf(entities) {
            lemma_front_wf(entities);
            lemma_chosen_wf(entities, kept(front), chosen);
        }
    }
}

/// The living entities are some of the entities: no more than there were,
/// each of them one of those that were there and alive, and well formed if
/// all were.
pub proof fn lemma_living(entities: Seq<EntityView>)
    ensures
        living(entities).len() <= entities.len(),
        forall|i: int| 0 <= i < living(entities).len() ==> (#[trigger] living(entities)[i]).alive,
        forall|i: int|
            0 <= i < living(entities).len() ==> among(
                entities,
                #[trigger] living(entities)[i],
                entities.len() as int,
            ),
        all_wf(entities) ==> all_wf(living(entities)),
    decreases entities.len(),
{
    if entities.len() > 0 {
        let front = entities.drop_last();
        let chosen = living(entities);
        lemma_living(front);
        assert forall|i: int| 0 <= i < chosen.len() implies among(
            entities,
            #[trigger] chosen[i],
            entities.len() as int,
        ) by {
            if i < living(front).len() {
                assert(among(front, living(front)[i], front.len() as int));
                let k = choose|k: int|
                    0 <= k < front.len() && k < front.len() && #[trigger] front[k] == living(front)[i];
                assert(entities[k] == chosen[i]);
            } else {
                assert(entities[entities.len() - 1] == chosen[i]);
            }
        }
        assert forall|i: int| 0 <= i < living(front).len() implies among(
            entities,
            #[trigger] living(front)[i],
            entities.len() - 1,
        ) by {
            assert(among(front, living(front)[i], front.len() as int));
            let k = choose|k: int| 0 <= k < front.len() && k < front.len() && #[trigger] front[k] == living(front)[i];
            assert(entities[k] == living(front)[i]);
        }
        if all_wf(entities) {
            lemma_front_wf(entities);
            lemma_chosen_wf(entities, living(front), chosen);
        }
    }
}

/// A well-formed list without its last entity is well formed.
proof fn lemma_front_wf(entities: Seq<EntityView>)
    requires
        all_wf(entities),
        entities.len() > 0,
    ensures
        all_wf(entities.drop_last()),
{
    let front = entities.drop_last();
    assert forall|i: int| 0 <= i < front.len() implies (#[trigger] front[i]).wf() by {
        assert(front[i] == entities[i]);
    }
    assert forall|i: int, j: int|
        0 <= i < front.len() && 0 <= j < front.len() && i != j && (#[trigger] front[i]).kind.id() is Some
        implies front[i].kind.id() != (#[trigger] front[j]).kind.id() by {
        assert(front[i] == entities[i]);
        assert(front[j] == entities[j]);
    }
}

/// A choice among the entities of a well-formed list is well formed, if it
/// is a well-formed choice among all but the last, with or without the
/// last.
proof fn lemma_chosen_wf(entities: Seq<EntityView>, before: Seq<EntityView>, chosen: Seq<EntityView>)
    requires
        all_wf(entities),
        entities.len() > 0,
        all_wf(before),
        forall|i: int| 0 <= i < before.len() ==> among(entities, #[trigger] before[i], entities.len() - 1),
        chosen == before || chosen == before.push(entities.last()),
    ensures
        all_wf(chosen),
{
    if chosen != before {
        let last = entities[entities.len() - 1];
        assert(last.wf());
        assert forall|i: int| 0 <= i < before.len() implies (#[trigger] before[i]).kind.id() != last.kind.id()
            || last.kind.id() is None by {
            assert(among(entities, before[i], entities.len() - 1));
            let k = choose|k: int|
                0 <= k < entities.len() - 1 && k < entities.len() && #[trigger] entities[k] == before[i];
            assert(entities[k].kind.id() is Some ==> entities[k].kind.id() != entities[entities.len() - 1].kind.id());
            assert(entities[entities.len() - 1].kind.id() is Some ==> entities[entities.len() - 1].kind.id()
                != entities[k].kind.id());
        }
        lemma_push_wf(before, last);
    }
}

/// The ledger after the dead entities of a list were struck off: for each
/// dead entity with an identifier, in the order of the list, the sector and
/// the identifier are appended.
pub open spec fn struck(entities: Seq<EntityView>, sector: Seq<char>, ledger: Seq<(Seq<char>, u32)>) -> Seq<
    (Seq<char>, u32),
>
    decreases entities.len(),
{
    if entities.len() == 0 {
        ledger
    } else {
        let before = struck(entities.drop_last(), sector, ledger);
        let last = entities.last();
        if !last.alive && last.kind.id() is Some {
            before.push((sector, last.kind.id()->0))
        } else {
            before
        }
    }
}

/// Striking dead entities off under the name of a registered sector keeps
/// every entry of the ledger naming a sector.
pub proof fn lemma_struck_listed(
    entities: Seq<EntityView>,
    sector: Seq<char>,
    ledger: Seq<(Seq<char>, u32)>,
    sectors: Seq<SectorView>,
)
    requires
        listed(sectors, ledger),
        registered(sectors, sector),
    ensures
        listed(sectors, struck(entities, sector, ledger)),
    decreases entities.len(),
{
    if entities.len() > 0 {
        lemma_struck_listed(entities.drop_last(), sector, ledger, sectors);
        let before = struck(entities.drop_last(), sector, ledger);
        let after = struck(entities, sector, ledger);
        assert forall|k: int| 0 <= k < after.len() implies registered(sectors, (#[trigger] after[k]).0) by {
            if k < before.len() {
                assert(after[k] == before[k]);
            }
        }
    }
}

/// The index of the first entity at `(x, y)`, or the number of entities if
/// there is none.
pub open spec fn first_at(entities: Seq<EntityView>, x: u32, y: u32) -> int
    decreases entities.len(),
{
    if entities.len() == 0 {
        0
    } else if entities[0].x == x && entities[0].y == y {
        0
    } else {
        1 + first_at(entities.drop_first(), x, y)
    }
}

/// `first_at` returns the first index at which an entity stands at the
/// place.
pub proof fn lemma_first_at(entities: Seq<EntityView>, x: u32, y: u32)
    ensures
        0 <= first_at(entities, x, y) <= entities.len(),
        first_at(entities, x, y) < entities.len() ==> entities[first_at(entities, x, y)].x == x
            && entities[first_at(entities, x, y)].y == y,
        forall|j: int| 0 <= j < first_at(entities, x, y) ==> !((#[trigger] entities[j]).x == x && entities[j].y == y),
    decreases entities.len(),
{
    if entities.len() > 0 && !(entities[0].x == x && entities[0].y == y) {
        let rest = entities.drop_first();
        lemma_first_at(rest, x, y);
        assert forall|j: int| 0 <= j < first_at(entities, x, y) implies !((#[trigger] entities[j]).x == x
            && entities[j].y == y) by {
            if j > 0 {
                assert(entities[j] == rest[j - 1]);
            }
        }
    }
}

impl WorldView {
    /// A world is well formed when its map is, its entities are, the player
    /// stands inside the grid, the difficulty is plain and every entry of
    /// the ledger names a sector of the map.
    pub open spec fn wf(self) -> bool {
        &&& self.map.wf()
        &&& all_wf(self.entities)
        &&& self.player.x < WIDTH
        &&& self.player.y < HEIGHT
        &&& self.difficulty.plain()
        &&& listed(self.map.baseline, self.despawned)
    }

    /// The world without the entity at index `i`. If the entity has an
    /// identifier, the active sector and the identifier join the ledger.
    pub open spec fn without(self, i: int) -> WorldView {
        WorldView {
            entities: self.entities.remove(i),
            despawned: if self.entities[i].kind.id() is Some {
                self.despawned.push((self.map.sector().id, self.entities[i].kind.id()->0))
            } else {
                self.despawned
            },
            ..self
        }
    }

    /// The world without its dead entities; those with an identifier join
    /// the ledger.
    pub open spec fn swept(self) -> WorldView {
        WorldView {
            entities: living(self.entities),
            despawned: struck(self.entities, self.map.sector().id, self.despawned),
            ..self
        }
    }

    /// The world after the player has gone over to the sector `target`: the
    /// sector that is left keeps the entities that persist, `target`
    /// becomes the active sector, and its entities become the world's.
    pub open spec fn moved_into(self, target: Seq<char>) -> WorldView {
        let stored = self.map.with_sector(SectorView { entities: kept(self.entities), ..self.map.sector() });
        let current = index_of(stored.sectors, target);
        WorldView {
            map: SectorMapView { current, ..stored },
            entities: stored.sectors[current].entities,
            ..self
        }
    }

    /// The world after the entities from index `from` on have had their
    /// turn, with the entities that have had theirs and the outcomes
    /// collected so far. Every entity acts on the world as it stands, in
    /// which the entities are still where they were before the first of
    /// them moved. A fatal outcome ends the turns at once.
    pub open spec fn ticked_from(
        self,
        draws: Seq<DrawView>,
        from: int,
        moved: Seq<EntityView>,
        outcomes: Seq<GoodView>,
    ) -> (WorldView, Seq<EntityView>, Result<Seq<GoodView>, BadResult>)
        decreases self.entities.len() - from,
    {
        if from < 0 || from >= self.entities.len() || from >= draws.len() {
            (self, moved, Ok(outcomes))
        } else {
            let turn = crate::entity::acted(self.entities[from], self, draws[from].impulse, draws[from].directions);
            match turn.2 {
                Err(bad) => (turn.1, moved, Err(bad)),
                Ok(good) => turn.1.ticked_from(
                    draws,
                    from + 1,
                    moved.push(turn.0),
                    if good is Proceed {
                        outcomes
                    } else {
                        outcomes.push(good)
                    },
                ),
            }
        }
    }

    /// The world after every entity has had its turn, with the outcomes of
    /// the meetings that entities forced on the player. Unless a meeting
    /// was fatal, the entities then take their new places, and the dead are
    /// removed.
    pub open spec fn ticked(self, draws: Seq<DrawView>) -> (WorldView, Result<Seq<GoodView>, BadResult>) {
        let turns = self.ticked_from(draws, 0, Seq::empty(), Seq::empty());
        match turns.2 {
            Err(bad) => (turns.0, Err(bad)),
            Ok(outcomes) => ((WorldView { entities: turns.1, ..turns.0 }).swept(), Ok(outcomes)),
        }
    }

    /// The world with one more entity.
    pub open spec fn with_entity(self, entity: EntityView) -> WorldView {
        WorldView { entities: self.entities.push(entity), ..self }
    }

    /// Whether `entity` is one that the two samples can bring into the
    /// world: alive, not persisting, food or an enemy as the samples decide,
    /// with stats as they are rolled for the kind, on a tile on which the kind
    /// may spawn.
    pub open spec fn spawned(self, entity: EntityView, trigger: u32, band: u32) -> bool {
        &&& entity.alive
        &&& !entity.persist
        &&& entity.kind is Food <==> self.spawn_decision(trigger, band) == Band::Food
        &&& spawn_kind_of(entity.kind, self, self.combined_difficulty())
        &&& self.spawnable(entity.kind, entity.x, entity.y)
        &&& entity.wf()
    }

    /// Whether `after` and `result` are what a turn after the player's move
    /// leads to, given what is drawn for the entities and for the spawn.
    ///
    /// First the turn counter advances and hunger and thirst take their
    /// toll: a death ends the turn. Then every entity has its turn: a fatal
    /// meeting ends the turn. Then the two samples decide on a spawn, and if
    /// the sector has a tile for what they decide on, one such entity joins
    /// the world. The report says whether thirst cost health, what the
    /// meetings led to, and whether an entity spawned.
    pub open spec fn played(
        self,
        draws: Seq<DrawView>,
        trigger: u32,
        band: u32,
        after: WorldView,
        result: Result<TurnReport, BadResult>,
    ) -> bool {
        let toll = self.survived();
        match toll.1 {
            Err(bad) => after == toll.0 && result == Err::<TurnReport, BadResult>(bad),
            Ok(hurt) => {
                let round = toll.0.ticked(draws);
                match round.1 {
                    Err(bad) => after == round.0 && result == Err::<TurnReport, BadResult>(bad),
                    Ok(outcomes) => {
                        let spawns = round.0.has_tile_for(round.0.spawn_decision(trigger, band));
                        &&& result is Ok
                        &&& result->Ok_0.thirst_damage == hurt
                        &&& result->Ok_0.outcomes.deep_view() == outcomes
                        &&& result->Ok_0.spawned == spawns
                        &&& if spawns {
                            exists|entity: EntityView|
                                round.0.spawned(entity, trigger, band) && after == #[trigger] round.0.with_entity(entity)
                        } else {
                            after == round.0
                        }
                    },
                }
            },
        }
    }

    /// The world after the player has met, in order, every entity from
    /// index `from` on that stands at `(x, y)`, with the outcome of the last
    /// meeting, or `result` if there was none. A fatal outcome ends the
    /// meetings at once.
    pub open spec fn met_from(self, x: u32, y: u32, from: int, result: TurnView) -> (WorldView, TurnView)
        decreases self.entities.len() - from,
    {
        if from < 0 || from >= self.entities.len() {
            (self, result)
        } else if self.entities[from].x == x && self.entities[from].y == y {
            let meeting = self.entities[from].meet(self.player);
            let next = WorldView { entities: self.entities.update(from, meeting.entity), ..self.after(meeting) };
            if meeting.result is Err {
                (next, meeting.result)
            } else {
                next.met_from(x, y, from + 1, meeting.result)
            }
        } else {
            self.met_from(x, y, from + 1, result)
        }
    }

    /// The world and the outcome of bending down to the tile the player
    /// stands on. The player meets the first entity on the tile; unless the
    /// meeting was fatal, the entity is removed if it died. On a tile
    /// without an entity the player rests and regains one health in every
    /// odd turn, up to the maximum.
    pub open spec fn engaged(self) -> (WorldView, TurnView) {
        let i = first_at(self.entities, self.player.x, self.player.y);
        if i < self.entities.len() {
            let meeting = self.entities[i].meet(self.player);
            let next = WorldView { entities: self.entities.update(i, meeting.entity), ..self.after(meeting) };
            if meeting.result is Err || meeting.entity.alive {
                (next, meeting.result)
            } else {
                (next.without(i), meeting.result)
            }
        } else {
            let rested = raised(self.player.health, (self.turn % 2) as u32);
            (
                WorldView {
                    player: PlayerView {
                        health: if rested < self.player.max_health.value() {
                            rested
                        } else {
                            self.player.max_health.value()
                        },
                        ..self.player
                    },
                    ..self
                },
                Ok(GoodView::Proceed),
            )
        }
    }

    /// The world and the outcome after the reward for a won fight was
    /// decided by `sample`: with a chance of 40 in a hundred the player's
    /// damage grows by one, and the outcome says so. Any other outcome is
    /// passed on.
    pub open spec fn rewarded(self, result: TurnView, sample: u32) -> (WorldView, TurnView) {
        if result matches Ok(GoodView::WonFight(_)) && spec_within_percent(sample, UPGRADE_PERCENT) {
            (
                WorldView {
                    player: PlayerView { damage: self.player.damage.shifted(1, false), ..self.player },
                    ..self
                },
                Ok(GoodView::WonFight(true)),
            )
        } else {
            (self, result)
        }
    }

    /// The world after the turn counter has advanced and hunger and thirst
    /// have taken their toll, with what the toll was: `Ok(true)` if thirst
    /// cost one health, `Ok(false)` if nothing happened, or the death that
    /// ends the session.
    ///
    /// Where the active sector lets hunger and thirst grow, hunger grows by
    /// one in every eighth turn, and thirst by one in every sixth turn
    /// unless it is above its cap already. Thirst above its cap costs one
    /// health, and is deadly when it costs the last. Only if thirst is not
    /// above its cap is hunger looked at: hunger above its cap is deadly at
    /// once.
    pub open spec fn survived(self) -> (WorldView, Result<bool, BadResult>) {
        let turn = raised(self.turn, 1);
        let grows = self.map.sector().do_survival;
        let hunger = if turn % HUNGER_INTERVAL == 0 && grows {
            raised(self.player.hunger, 1)
        } else {
            self.player.hunger
        };
        let thirst_cap = self.player.thirst_cap.value();
        let hunger_cap = self.player.hunger_cap.value();
        let thirst = if turn % THIRST_INTERVAL == 0 && self.player.thirst <= thirst_cap && grows {
            raised(self.player.thirst, 1)
        } else {
            self.player.thirst
        };
        let parched = thirst > thirst_cap;
        let health = if parched {
            lowered(self.player.health, 1)
        } else {
            self.player.health
        };
        let next = WorldView { turn, player: PlayerView { hunger, thirst, health, ..self.player }, ..self };
        if parched {
            if health == 0 {
                (next, Err(BadResult::ThirstDeath))
            } else {
                (next, Ok(true))
            }
        } else if hunger > hunger_cap {
            (next, Err(BadResult::HungerDeath))
        } else {
            (next, Ok(false))
        }
    }

    /// Where the player stands after crossing an edge in `direction`: on the
    /// return tile of the sector that was left, if it has one, else on the
    /// opposite edge.
    pub open spec fn crossed_to(self, direction: Direction) -> (u32, u32) {
        match self.map.sector().return_tile {
            Some(tile) => tile,
            None => match direction {
                Direction::Up => (self.player.x, (HEIGHT - 1) as u32),
                Direction::Down => (self.player.x, 0u32),
                Direction::Left => ((WIDTH - 1) as u32, self.player.y),
                Direction::Right => (0u32, self.player.y),
            },
        }
    }

    /// Whether a step in `direction` leaves the grid.
    pub open spec fn leaves(self, direction: Direction) -> bool {
        let target = direction.spec_step(self.player.x, self.player.y);
        target == (self.player.x, self.player.y) || target.0 >= WIDTH || target.1 >= HEIGHT
    }

    /// The world and the outcome of a step of the player in `direction`.
    ///
    /// A step that leaves the grid leads to the neighbor in that direction,
    /// or is refused if there is none. A step onto an entrance leads to the
    /// sector behind it: the player arrives at the top left corner and, in a
    /// sector without hunger and thirst, is fed, watered and healed. A step
    /// onto a mountain is refused. A step onto water is not taken either,
    /// but quenches the thirst. Any other step is taken, and the player
    /// meets every entity on the tile; unless a meeting was fatal, the
    /// entities that died are then removed.
    pub open spec fn go(self, direction: Direction) -> (WorldView, TurnView) {
        let target = direction.spec_step(self.player.x, self.player.y);
        if self.leaves(direction) {
            match self.map.sector().neighbors[direction.spec_index()] {
                Some(name) => {
                    let place = self.crossed_to(direction);
                    let arrived = self.moved_into(name);
                    (
                        WorldView { player: PlayerView { x: place.0, y: place.1, ..self.player }, ..arrived },
                        Ok(GoodView::Proceed),
                    )
                },
                None => (self, Ok(GoodView::InvalidMove(direction))),
            }
        } else {
            match self.map.sector().entrance_at(target.0, target.1) {
                Some(name) => {
                    let arrived = self.moved_into(name);
                    let player = PlayerView { x: 0, y: 0, ..self.player };
                    (
                        WorldView {
                            player: if arrived.map.sector().do_survival {
                                player
                            } else {
                                PlayerView { thirst: 0, hunger: 0, health: player.max_health.value(), ..player }
                            },
                            ..arrived
                        },
                        Ok(GoodView::Proceed),
                    )
                },
                None => match self.map.sector().tiles[target.1 as int][target.0 as int].kind {
                    TileKind::Mountain => (self, Ok(GoodView::InvalidMove(direction))),
                    TileKind::Water => (
                        WorldView { player: PlayerView { thirst: 0, ..self.player }, ..self },
                        Ok(GoodView::WaterMove),
                    ),
                    _ => {
                        let stepped = WorldView {
                            player: PlayerView { x: target.0, y: target.1, ..self.player },
                            ..self
                        };
                        let met = stepped.met_from(target.0, target.1, 0, Ok(GoodView::Proceed));
                        if met.1 is Err {
                            met
                        } else {
                            (met.0.swept(), met.1)
                        }
                    },
                },
            }
        }
    }
}

/// What a turn that ran to its end has to report.
#[derive(Debug)]
pub struct TurnReport {
    /// Whether thirst cost the player one health.
    pub thirst_damage: bool,
    /// The outcomes of the meetings that entities forced on the player, in
    /// their order.
    pub outcomes: Vec<GoodResult>,
    /// Whether an entity spawned.
    pub spawned: bool,
}

/// The values of the outcomes that a round of entity turns collected.
pub open spec fn outcomes_view(r: Result<Vec<GoodResult>, BadResult>) -> Result<Seq<GoodView>, BadResult> {
    match r {
        Ok(outcomes) => Ok(outcomes.deep_view()),
        Err(bad) => Err(bad),
    }
}

/// Whether an outcome is one that an attacking enemy can bring about.
pub open spec fn attack_outcome(outcome: GoodView) -> bool {
    outcome is Fight || outcome == GoodView::WonFight(false)
}

/// The state of a session.
#[derive(Debug)]
pub struct World {
    pub map: SectorMap,
    pub player: Player,
    /// The entities of the active sector.
    pub entities: Vec<Entity>,
    /// The sector and identifier of every boss, item or character that was
    /// removed for good.
    pub despawned: Vec<(String, u32)>,
    /// The number of turns played.
    pub turn: u32,
    /// The difficulty the player chose, composed with each sector's own.
    pub difficulty: Difficulty,
}

impl View for World {
    type V = WorldView;

    open spec fn view(&self) -> WorldView {
        WorldView {
            map: self.map@,
            player: self.player@,
            entities: self.entities.deep_view(),
            despawned: self.despawned.deep_view(),
            turn: self.turn,
            difficulty: self.difficulty,
        }
    }
}

/// Copies the entities that persist.
fn persisting(entities: &Vec<Entity>) -> (r: Vec<Entity>)
    ensures
        r.deep_view() == kept(entities.deep_view()),
{
    let mut r: Vec<Entity> = Vec::new();
    let mut i: usize = 0;
    proof {
        assert(entities.deep_view().take(0) =~= Seq::<EntityView>::empty());
        assert(r.deep_view() =~= Seq::<EntityView>::empty());
    }
    while i < entities.len()
        invariant
            i <= entities.len(),
            r.deep_view() == kept(entities.deep_view().take(i as int)),
        decreases entities.len() - i,
    {
        let ghost before = r.deep_view();
        proof {
            assert(entities.deep_view().take(i + 1).drop_last() =~= entities.deep_view().take(i as int));
            assert(entities.deep_view().take(i + 1).last() == entities[i as int]@);
        }
        if entities[i].persist {
            r.push(entities[i].clone());
            proof {
                assert(r.deep_view() =~= before.push(entities[i as int]@));
            }
        }
        i = i + 1;
    }
    proof {
        assert(entities.deep_view().take(i as int) =~= entities.deep_view());
    }
    r
}

impl World {
    /// A world over `sectors` in which a new player stands at
    /// `(player_x, player_y)` of the sector `start`: not hungry, not
    /// thirsty, with ten health and one damage, carrying nothing, at the
    /// neutral difficulty.
    pub fn new(player_x: u32, player_y: u32, sectors: Vec<Sector>, start: &str) -> (r: World)
        requires
            player_x < WIDTH,
            player_y < HEIGHT,
            registry_wf(sectors.deep_view()),
            registered(sectors.deep_view(), start@),
        ensures
            r@.wf(),
            r@.map.sectors == sectors.deep_view(),
            r@.map.baseline == sectors.deep_view(),
            r@.map.current == index_of(sectors.deep_view(), start@),
            r@.entities == r@.map.sector().entities,
            r@.player == (PlayerView {
                x: player_x,
                y: player_y,
                hunger: 0,
                thirst: 0,
                hunger_cap: Stat { held: INITIAL_HUNGER_CAP as i64 },
                thirst_cap: Stat { held: INITIAL_THIRST_CAP as i64 },
                health: 10,
                max_health: Stat { held: 10 },
                damage: Stat { held: 1 },
                inventory: Seq::empty(),
            }),
            r@.despawned == Seq::<(Seq<char>, u32)>::empty(),
            r@.turn == 0,
            r@.difficulty == Difficulty::of_percents(100, 100, 100, 100, 100),
    {
        let (entities, map) = SectorMap::new(sectors, start);
        let inventory: Vec<crate::item::Item> = Vec::new();
        let despawned: Vec<(String, u32)> = Vec::new();
        proof {
            assert(inventory.deep_view() =~= Seq::<crate::item::ItemView>::empty());
            assert(despawned.deep_view() =~= Seq::<(Seq<char>, u32)>::empty());
            assert(map@.sector().wf());
        }
        World {
            map,
            player: Player {
                x: player_x,
                y: player_y,
                hunger: 0,
                thirst: 0,
                hunger_cap: Stat::of(INITIAL_HUNGER_CAP),
                thirst_cap: Stat::of(INITIAL_THIRST_CAP),
                health: 10,
                max_health: Stat::of(10),
                damage: Stat::of(1),
                inventory,
            },
            entities,
            despawned,
            turn: 0,
            difficulty: Difficulty::normal(),
        }
    }

    /// Whether the world is well formed.
    pub fn check(&self) -> (r: bool)
        ensures
            r == self@.wf(),
    {
        if !self.map.check() || !check_entities(&self.entities) {
            return false;
        }
        if self.player.x as usize >= WIDTH || self.player.y as usize >= HEIGHT {
            return false;
        }
        if !self.difficulty.is_plain() {
            return false;
        }
        let mut k: usize = 0;
        while k < self.despawned.len()
            invariant
                k <= self.despawned.len(),
                forall|j: int| 0 <= j < k ==> registered(self@.map.baseline, (#[trigger] self@.despawned[j]).0),
            decreases self.despawned.len() - k,
        {
            assert(self@.despawned[k as int].0 == self.despawned[k as int].0@);
            if crate::map::find_sector(&self.map.baseline, self.despawned[k].0.as_str()).is_none() {
                return false;
            }
            k = k + 1;
        }
        true
    }

    /// Removes the entity at index `i`. If it has an identifier, the active
    /// sector and the identifier are entered in the ledger, so that the
    /// entity stays away when the session is restored.
    pub fn despawn(&mut self, i: usize)
        requires
            i < old(self)@.entities.len(),
            old(self).map.current < old(self).map.sectors.len(),
        ensures
            final(self)@ == old(self)@.without(i as int),
            old(self)@.wf() ==> final(self)@.wf(),
    {
        let entity = self.entities.remove(i);
        proof {
            assert(self.entities.deep_view() =~= old(self).entities.deep_view().remove(i as int));
            assert(entity@ == old(self)@.entities[i as int]);
        }
        if let Some(id) = entity.id() {
            let sector = self.map.sector().id.clone();
            self.despawned.push((sector, id));
            proof {
                assert(self.despawned.deep_view() =~= old(self).despawned.deep_view().push(
                    (old(self)@.map.sector().id, id),
                ));
                if old(self)@.wf() {
                    lemma_member_registered(self@.map.baseline, self@.map.current);
                    assert(self@.map.baseline[self@.map.current].id == self@.map.sector().id);
                    assert forall|k: int| 0 <= k < self@.despawned.len() implies registered(
                        self@.map.baseline,
                        (#[trigger] self@.despawned[k]).0,
                    ) by {
                        if k < old(self)@.despawned.len() {
                            assert(self@.despawned[k] == old(self)@.despawned[k]);
                        }
                    }
                }
            }
        }
    }

    /// Removes the first entity with the identifier `id`, if there is one,
    /// and enters it in the ledger.
    pub fn despawn_id(&mut self, id: u32)
        requires
            old(self).map.current < old(self).map.sectors.len(),
        ensures
            index_of_id(old(self)@.entities, id) < old(self)@.entities.len() ==> final(self)@ == old(self)@.without(
                index_of_id(old(self)@.entities, id),
            ),
            index_of_id(old(self)@.entities, id) >= old(self)@.entities.len() ==> final(self)@ == old(self)@,
            old(self)@.wf() ==> final(self)@.wf(),
    {
        proof {
            lemma_index_of_id(self@.entities, id);
        }
        let mut i: usize = 0;
        while i < self.entities.len()
            invariant
                *self == *old(self),
                i <= self.entities.len(),
                self.map.current < self.map.sectors.len(),
                forall|j: int| 0 <= j < i ==> (#[trigger] self@.entities[j]).kind.id() != Some(id),
            decreases self.entities.len() - i,
        {
            if self.entities[i].id() == Some(id) {
                proof {
                    lemma_index_of_id(self@.entities, id);
                    assert(self@.entities[i as int].kind.id() == Some(id));
                    assert(index_of_id(self@.entities, id) == i);
                }
                self.despawn(i);
                return ;
            }
            assert(self@.entities[i as int].kind.id() != Some(id));
            i = i + 1;
        }
        proof {
            assert(index_of_id(self@.entities, id) == self@.entities.len());
        }
    }

    /// Puts a living entity of the given kind at `(x, y)`; it does not
    /// persist. Nothing happens if the place lies outside the grid.
    pub fn spawn(&mut self, x: u32, y: u32, entity: EntityKind)
        ensures
            x < WIDTH && y < HEIGHT ==> final(self)@ == (WorldView {
                entities: old(self)@.entities.push(
                    EntityView { x, y, kind: entity@, alive: true, persist: false },
                ),
                ..old(self)@
            }),
            !(x < WIDTH && y < HEIGHT) ==> final(self)@ == old(self)@,
            old(self)@.wf() && all_wf(
                old(self)@.entities.push(EntityView { x, y, kind: entity@, alive: true, persist: false }),
            ) ==> final(self)@.wf(),
    {
        if (x as usize) < WIDTH && (y as usize) < HEIGHT {
            let ghost added = EntityView { x, y, kind: entity@, alive: true, persist: false };
            self.entities.push(Entity { kind: entity, x, y, alive: true, persist: false });
            proof {
                assert(self.entities.deep_view() =~= old(self).entities.deep_view().push(added));
            }
        }
    }

    /// Removes the dead entities; those with an identifier are entered in
    /// the ledger.
    pub fn sweep(&mut self)
        requires
            old(self).map.current < old(self).map.sectors.len(),
        ensures
            final(self)@ == old(self)@.swept(),
            old(self)@.wf() ==> final(self)@.wf(),
    {
        let mut survivors: Vec<Entity> = Vec::new();
        let mut i: usize = 0;
        proof {
            assert(self.entities.deep_view().take(0) =~= Seq::<EntityView>::empty());
            assert(survivors.deep_view() =~= Seq::<EntityView>::empty());
        }
        while i < self.entities.len()
            invariant
                i <= self.entities.len(),
                self.map.current < self.map.sectors.len(),
                self.entities == old(self).entities,
                self.map == old(self).map,
                self@.player == old(self)@.player,
                self.turn == old(self).turn,
                self.difficulty == old(self).difficulty,
                survivors.deep_view() == living(self.entities.deep_view().take(i as int)),
                self.despawned.deep_view() == struck(
                    self.entities.deep_view().take(i as int),
                    self@.map.sector().id,
                    old(self)@.despawned,
                ),
            decreases self.entities.len() - i,
        {
            let ghost before = survivors.deep_view();
            let ghost ledger = self.despawned.deep_view();
            proof {
                assert(self.entities.deep_view().take(i + 1).drop_last() =~= self.entities.deep_view().take(
                    i as int,
                ));
                assert(self.entities.deep_view().take(i + 1).last() == self.entities[i as int]@);
            }
            if self.entities[i].alive {
                survivors.push(self.entities[i].clone());
                proof {
                    assert(survivors.deep_view() =~= before.push(self.entities[i as int]@));
                }
            } else {
                if let Some(id) = self.entities[i].id() {
                    let sector = self.map.sector().id.clone();
                    self.despawned.push((sector, id));
                    proof {
                        assert(self.despawned.deep_view() =~= ledger.push((self@.map.sector().id, id)));
                    }
                }
            }
            i = i + 1;
        }
        proof {
            assert(self.entities.deep_view().take(i as int) =~= self.entities.deep_view());
            lemma_living(self.entities.deep_view());
            if old(self)@.wf() {
                lemma_member_registered(self@.map.baseline, self@.map.current);
                assert(self@.map.baseline[self@.map.current].id == self@.map.sector().id);
                lemma_struck_listed(
                    self.entities.deep_view(),
                    self@.map.sector().id,
                    old(self)@.despawned,
                    self@.map.baseline,
                );
            }
        }
        self.entities = survivors;
    }

    /// Goes over to the sector `target`: the sector that is left keeps the
    /// entities that persist, `target` becomes the active sector, and its
    /// entities become the world's.
    pub fn move_into(&mut self, target: &str)
        requires
            old(self)@.map.wf(),
            all_wf(old(self)@.entities),
            registered(old(self)@.map.sectors, target@),
        ensures
            final(self)@ == old(self)@.moved_into(target@),
            final(self)@.map.wf(),
            all_wf(final(self)@.entities),
            final(self)@.map.sector().id == target@,
    {
        let persistent = persisting(&self.entities);
        let id = self.map.sector().id.clone();
        proof {
            lemma_kept(self@.entities);
            lemma_index_of(self@.map.sectors, id@);
            assert(index_of(self@.map.sectors, id@) == self@.map.current);
        }
        self.map.save_entities(id.as_str(), persistent);
        proof {
            crate::map::lemma_same_names_index(old(self)@.map.sectors, self@.map.sectors, target@);
            lemma_index_of(self@.map.sectors, target@);
        }
        self.entities = self.map.load(target);
        proof {
            assert(self@.map.sector().wf());
        }
    }

    /// Moves the player one step in `direction`: see `WorldView::go`.
    pub fn go(&mut self, direction: Direction) -> (r: TurnResult)
        requires
            old(self)@.wf(),
        ensures
            (final(self)@, turn_view(r)) == old(self)@.go(direction),
            final(self)@.wf(),
    {
        let (x, y) = direction.step(self.player.x, self.player.y);
        if (x == self.player.x && y == self.player.y) || x as usize >= WIDTH || y as usize >= HEIGHT {
            let neighbor = match self.map.sector().neighbor(direction) {
                Some(name) => Some(name.to_owned()),
                None => None,
            };
            match neighbor {
                Some(name) => {
                    let place = match self.map.sector().return_tile {
                        Some(tile) => tile,
                        None => match direction {
                            Direction::Up => (self.player.x, HEIGHT as u32 - 1),
                            Direction::Down => (self.player.x, 0),
                            Direction::Left => (WIDTH as u32 - 1, self.player.y),
                            Direction::Right => (0, self.player.y),
                        },
                    };
                    proof {
                        assert(self@.map.sector().wf());
                        assert(crate::map::links_closed(self@.map.sectors, self@.map.sector()));
                        assert(self@.map.sector().neighbors[direction.spec_index()] == Some(name@));
                    }
                    self.move_into(name.as_str());
                    self.player.x = place.0;
                    self.player.y = place.1;
                    Ok(GoodResult::Proceed)
                },
                None => Ok(GoodResult::InvalidMove(direction)),
            }
        } else {
            let entrance = match self.map.sector().get_entrance(x, y) {
                Some(name) => Some(name.to_owned()),
                None => None,
            };
            match entrance {
                Some(name) => {
                    proof {
                        crate::sector::lemma_entrance_index(self@.map.sector().entrances, x, y);
                        assert(crate::map::links_closed(self@.map.sectors, self@.map.sector()));
                        let k = crate::sector::entrance_index(self@.map.sector().entrances, x, y);
                        assert(self@.map.sector().entrances[k].2 == name@);
                    }
                    self.move_into(name.as_str());
                    self.player.x = 0;
                    self.player.y = 0;
                    if !self.map.sector().do_survival {
                        self.player.thirst = 0;
                        self.player.hunger = 0;
                        self.player.health = self.player.max_health.get();
                    }
                    Ok(GoodResult::Proceed)
                },
                None => {
                    let tile = self.map.get(x, y).unwrap();
                    match tile.kind {
                        TileKind::Mountain => Ok(GoodResult::InvalidMove(direction)),
                        TileKind::Water => {
                            self.player.thirst = 0;
                            Ok(GoodResult::WaterMove)
                        },
                        _ => {
                            self.player.x = x;
                            self.player.y = y;
                            let r = self.meet_all(x, y);
                            if r.is_ok() {
                                self.sweep();
                            }
                            r
                        },
                    }
                },
            }
        }
    }

    /// Lets the player meet, in order, every entity that stands at
    /// `(x, y)`, and returns the outcome of the last meeting. A fatal
    /// outcome ends the meetings at once.
    pub fn meet_all(&mut self, x: u32, y: u32) -> (r: TurnResult)
        requires
            old(self)@.wf(),
        ensures
            (final(self)@, turn_view(r)) == old(self)@.met_from(x, y, 0, Ok(GoodView::Proceed)),
            final(self)@.wf(),
    {
        let mut res = GoodResult::Proceed;
        let mut i: usize = 0;
        while i < self.entities.len()
            invariant
                i <= self.entities.len(),
                self@.wf(),
                self@.met_from(x, y, i as int, Ok(res@)) == old(self)@.met_from(x, y, 0, Ok(GoodView::Proceed)),
            decreases self.entities.len() - i,
        {
            if self.entities[i].x == x && self.entities[i].y == y {
                let ghost before = self@;
                let ghost meeting = before.entities[i as int].meet(before.player);
                let outcome = self.entities[i].interact(&mut self.player, &mut self.map);
                proof {
                    assert(self.entities.deep_view() =~= before.entities.update(i as int, meeting.entity));
                    assert(self@ == (WorldView {
                        entities: before.entities.update(i as int, meeting.entity),
                        ..before.after(meeting)
                    }));
                }
                match outcome {
                    Err(bad) => {
                        return Err(bad);
                    },
                    Ok(good) => {
                        res = good;
                    },
                }
            }
            i = i + 1;
        }
        Ok(res)
    }

    /// Bends down to the tile the player stands on: see
    /// `WorldView::engaged`.
    pub fn engage(&mut self) -> (r: TurnResult)
        requires
            old(self)@.wf(),
        ensures
            (final(self)@, turn_view(r)) == old(self)@.engaged(),
            final(self)@.wf(),
    {
        let x = self.player.x;
        let y = self.player.y;
        proof {
            lemma_first_at(self@.entities, x, y);
        }
        let mut i: usize = 0;
        while i < self.entities.len()
            invariant
                i <= self.entities.len(),
                *self == *old(self),
                self@.wf(),
                x == self.player.x,
                y == self.player.y,
                forall|j: int| 0 <= j < i ==> !((#[trigger] self@.entities[j]).x == x && self@.entities[j].y == y),
            decreases self.entities.len() - i,
        {
            if self.entities[i].x == x && self.entities[i].y == y {
                proof {
                    lemma_first_at(self@.entities, x, y);
                    assert(self@.entities[i as int].x == x && self@.entities[i as int].y == y);
                    assert(first_at(self@.entities, x, y) == i);
                }
                let ghost before = self@;
                let ghost meeting = before.entities[i as int].meet(before.player);
                let outcome = self.entities[i].interact(&mut self.player, &mut self.map);
                proof {
                    assert(self.entities.deep_view() =~= before.entities.update(i as int, meeting.entity));
                }
                if outcome.is_ok() && !self.entities[i].alive {
                    self.despawn(i);
                }
                return outcome;
            }
            assert(!(self@.entities[i as int].x == x && self@.entities[i as int].y == y));
            i = i + 1;
        }
        proof {
            lemma_first_at(self@.entities, x, y);
            assert(first_at(self@.entities, x, y) == self@.entities.len());
        }
        let rested = self.player.health.saturating_add(self.turn % 2);
        self.player.health = if rested < self.player.max_health.get() {
            rested
        } else {
            self.player.max_health.get()
        };
        Ok(GoodResult::Proceed)
    }

    /// Decides the reward for a won fight by `sample`: see
    /// `WorldView::rewarded`.
    pub fn reward(&mut self, result: TurnResult, sample: u32) -> (r: TurnResult)
        ensures
            (final(self)@, turn_view(r)) == old(self)@.rewarded(turn_view(result), sample),
            old(self)@.wf() ==> final(self)@.wf(),
    {
        let won = match &result {
            Ok(GoodResult::WonFight(_)) => true,
            _ => false,
        };
        if won && within_percent(sample, UPGRADE_PERCENT) {
            self.player.damage = self.player.damage.shift(1, false);
            Ok(GoodResult::WonFight(true))
        } else {
            result
        }
    }

    /// Bends down to the tile the player stands on, and draws the sample
    /// that decides on the reward for a won fight.
    pub fn interact(&mut self) -> (r: TurnResult)
        requires
            old(self)@.wf(),
        ensures
            exists|sample: u32|
                sample < UNIT && (final(self)@, turn_view(r)) == #[trigger] old(self)@.engaged().0.rewarded(
                    old(self)@.engaged().1,
                    sample,
                ),
            final(self)@.wf(),
    {
        let outcome = self.engage();
        let drawn = sample();
        let r = self.reward(outcome, drawn);
        proof {
            assert((self@, turn_view(r)) == old(self)@.engaged().0.rewarded(old(self)@.engaged().1, drawn));
        }
        r
    }

    /// Advances the turn counter and lets hunger and thirst take their
    /// toll: see `WorldView::survived`.
    pub fn survival_tick(&mut self) -> (r: Result<bool, BadResult>)
        requires
            old(self).map.current < old(self).map.sectors.len(),
        ensures
            (final(self)@, r) == old(self)@.survived(),
            old(self)@.wf() ==> final(self)@.wf(),
    {
        self.turn = self.turn.saturating_add(1);
        let grows = self.map.sector().do_survival;
        if self.turn % HUNGER_INTERVAL == 0 && grows {
            self.player.hunger = self.player.hunger.saturating_add(1);
        }
        let thirst_cap = self.player.thirst_cap.get();
        let hunger_cap = self.player.hunger_cap.get();
        if self.turn % THIRST_INTERVAL == 0 && self.player.thirst <= thirst_cap && grows {
            self.player.thirst = self.player.thirst.saturating_add(1);
        }
        if self.player.thirst > thirst_cap {
            self.player.health = self.player.health.saturating_sub(1);
            if self.player.health == 0 {
                return Err(BadResult::ThirstDeath);
            }
            Ok(true)
        } else if self.player.hunger > hunger_cap {
            Err(BadResult::HungerDeath)
        } else {
            Ok(false)
        }
    }

    /// Gives every entity its turn, in order, with what was drawn for it:
    /// see `WorldView::ticked`.
    pub fn entity_tick_with(&mut self, draws: &Vec<Draw>) -> (r: Result<Vec<GoodResult>, BadResult>)
        requires
            old(self)@.wf(),
            draws.len() == old(self)@.entities.len(),
        ensures
            (final(self)@, outcomes_view(r)) == old(self)@.ticked(draws.deep_view()),
            final(self)@.wf(),
            final(self)@.map == old(self)@.map,
            final(self)@.turn == old(self)@.turn,
            final(self)@.difficulty == old(self)@.difficulty,
            final(self)@.player == (PlayerView { health: final(self)@.player.health, ..old(self)@.player }),
            final(self)@.player.health <= old(self)@.player.health,
            final(self)@.entities.len() <= old(self)@.entities.len(),
            r is Err ==> r == Err::<Vec<GoodResult>, BadResult>(BadResult::ViolentDeath)
                && final(self)@.player.health == 0 && final(self)@.entities == old(self)@.entities,
            r matches Ok(outcomes) ==> {
                &&& forall|i: int| 0 <= i < final(self)@.entities.len() ==> (#[trigger] final(self)@.entities[i]).alive
                &&& forall|i: int| 0 <= i < outcomes.len() ==> attack_outcome((#[trigger] outcomes[i])@)
            },
    {
        let n = self.entities.len();
        let mut next: Vec<Entity> = Vec::new();
        let mut outcomes: Vec<GoodResult> = Vec::new();
        let mut i: usize = 0;
        proof {
            assert(next.deep_view() =~= Seq::<EntityView>::empty());
            assert(outcomes.deep_view() =~= Seq::<GoodView>::empty());
            assert(self.entities.deep_view().len() == self.entities.len());
            assert(draws.deep_view().len() == draws.len());
        }
        while i < n
            invariant
                i <= n,
                n == self.entities.len(),
                n == draws.len(),
                draws.deep_view().len() == n,
                next.len() == i,
                self@.wf(),
                forall|k: int| 0 <= k < i ==> (#[trigger] next.deep_view()[k]).wf(),
                forall|k: int|
                    0 <= k < i ==> (#[trigger] next.deep_view()[k]).kind.id() == old(self)@.entities[k].kind.id(),
                self@.entities == old(self)@.entities,
                self@.despawned == old(self)@.despawned,
                self@.map == old(self)@.map,
                self@.turn == old(self)@.turn,
                self@.difficulty == old(self)@.difficulty,
                self@.player == (PlayerView { health: self@.player.health, ..old(self)@.player }),
                self@.player.health <= old(self)@.player.health,
                forall|k: int| 0 <= k < outcomes.len() ==> attack_outcome((#[trigger] outcomes[k])@),
                self@.ticked_from(draws.deep_view(), i as int, next.deep_view(), outcomes.deep_view()) == old(
                    self,
                )@.ticked_from(draws.deep_view(), 0, Seq::empty(), Seq::empty()),
            decreases n - i,
        {
            let mut entity = self.entities[i].clone();
            let ghost before = self@;
            let ghost start = entity@;
            let ghost collected = next.deep_view();
            let ghost reported = outcomes.deep_view();
            proof {
                assert(self@.entities[i as int].wf());
                assert(draws.deep_view()[i as int] == draws[i as int]@);
            }
            let outcome = entity.act(self, draws[i].impulse, &draws[i].directions);
            proof {
                if start.kind is Enemy {
                    let place = crate::entity::first_admitted(
                        before,
                        start.x,
                        start.y,
                        draws[i as int]@.directions,
                        true,
                    );
                    let moved = start.at(place.0, place.1);
                    assert(moved.meet(before.player).opened is None);
                }
            }
            match outcome {
                Err(bad) => {
                    return Err(bad);
                },
                Ok(good) => {
                    match good {
                        GoodResult::Proceed => {},
                        other => {
                            outcomes.push(other);
                            proof {
                                assert(outcomes.deep_view() =~= reported.push(other@));
                            }
                        },
                    }
                },
            }
            next.push(entity);
            proof {
                assert(next.deep_view() =~= collected.push(entity@));
                assert(self.entities.deep_view().len() == self.entities.len());
                assert(old(self).entities.deep_view().len() == old(self).entities.len());
            }
            i = i + 1;
        }
        proof {
            let moved = next.deep_view();
            let stood = old(self)@.entities;
            assert(old(self).entities.deep_view().len() == old(self).entities.len());
            assert forall|a: int, b: int|
                0 <= a < moved.len() && 0 <= b < moved.len() && a != b && (#[trigger] moved[a]).kind.id() is Some
                implies moved[a].kind.id() != (#[trigger] moved[b]).kind.id() by {
                assert(stood[a].kind.id() is Some ==> stood[a].kind.id() != stood[b].kind.id());
            }
            assert(all_wf(moved));
        }
        self.entities = next;
        self.sweep();
        proof {
            lemma_living(next.deep_view());
        }
        Ok(outcomes)
    }

    /// Gives every entity its turn, in order. Each entity acts on the world
    /// as it was before the first of them moved: no entity sees where
    /// another has moved to in the same turn. The outcome of every meeting
    /// that an enemy forces on the player is collected. When all have had
    /// their turn, they take their new places, and the dead are removed. A
    /// fatal meeting ends the turn at once, and the entities stay where
    /// they were.
    pub fn entity_tick(&mut self) -> (r: Result<Vec<GoodResult>, BadResult>)
        requires
            old(self)@.wf(),
        ensures
            exists|draws: Seq<DrawView>|
                draws.len() == old(self)@.entities.len() && (final(self)@, outcomes_view(r)) == #[trigger] old(
                    self,
                )@.ticked(draws),
            final(self)@.wf(),
            final(self)@.map == old(self)@.map,
            final(self)@.turn == old(self)@.turn,
            final(self)@.difficulty == old(self)@.difficulty,
            final(self)@.player == (PlayerView { health: final(self)@.player.health, ..old(self)@.player }),
            final(self)@.player.health <= old(self)@.player.health,
            final(self)@.entities.len() <= old(self)@.entities.len(),
            r is Err ==> r == Err::<Vec<GoodResult>, BadResult>(BadResult::ViolentDeath)
                && final(self)@.player.health == 0 && final(self)@.entities == old(self)@.entities,
            r matches Ok(outcomes) ==> {
                &&& forall|i: int| 0 <= i < final(self)@.entities.len() ==> (#[trigger] final(self)@.entities[i]).alive
                &&& forall|i: int| 0 <= i < outcomes.len() ==> attack_outcome((#[trigger] outcomes[i])@)
            },
    {
        let mut draws: Vec<Draw> = Vec::new();
        let mut i: usize = 0;
        while i < self.entities.len()
            invariant
                i <= self.entities.len(),
                draws.len() == i,
                *self == *old(self),
            decreases self.entities.len() - i,
        {
            draws.push(Draw::random());
            i = i + 1;
        }
        proof {
            assert(self.entities.deep_view().len() == self.entities.len());
            assert(draws.deep_view().len() == draws.len());
        }
        let r = self.entity_tick_with(&draws);
        proof {
            assert((self@, outcomes_view(r)) == old(self)@.ticked(draws.deep_view()));
        }
        r
    }

    /// Plays one turn after the player's move: the turn counter advances,
    /// hunger and thirst take their toll, every entity has its turn, and at
    /// most one entity spawns. A death ends the turn at once.
    pub fn update(&mut self) -> (r: Result<TurnReport, BadResult>)
        requires
            old(self)@.wf(),
        ensures
            exists|draws: Seq<DrawView>, trigger: u32, band: u32|
                draws.len() == old(self)@.entities.len() && trigger < UNIT && band < UNIT
                    && #[trigger] old(self)@.played(draws, trigger, band, final(self)@, r),
            final(self)@.wf(),
            old(self)@.survived().1 is Err ==> final(self)@ == old(self)@.survived().0 && r == Err::<
                TurnReport,
                BadResult,
            >(old(self)@.survived().1->Err_0),
            old(self)@.survived().1 is Ok ==> {
                let toll = old(self)@.survived().0;
                &&& final(self)@.turn == toll.turn
                &&& final(self)@.map == toll.map
                &&& final(self)@.difficulty == toll.difficulty
                &&& final(self)@.player == (PlayerView { health: final(self)@.player.health, ..toll.player })
                &&& final(self)@.player.health <= toll.player.health
                &&& r is Err ==> r == Err::<TurnReport, BadResult>(BadResult::ViolentDeath)
                    && final(self)@.player.health == 0
                &&& r matches Ok(report) ==> {
                    &&& report.thirst_damage == old(self)@.survived().1->Ok_0
                    &&& forall|i: int|
                        0 <= i < report.outcomes.len() ==> attack_outcome((#[trigger] report.outcomes[i])@)
                    &&& final(self)@.entities.len() <= old(self)@.entities.len() + 1
                    &&& final(self)@.entities.len() <= old(self)@.entities.len()
                        || final(self)@.entities.len() <= max_entities_at(toll.turn)
                    &&& report.spawned ==> final(self)@.entities.len() <= max_entities_at(toll.turn)
                    &&& forall|i: int|
                        0 <= i < final(self)@.entities.len() ==> (#[trigger] final(self)@.entities[i]).alive
                }
            },
    {
        let mut draws: Vec<Draw> = Vec::new();
        let mut i: usize = 0;
        while i < self.entities.len()
            invariant
                i <= self.entities.len(),
                draws.len() == i,
                *self == *old(self),
            decreases self.entities.len() - i,
        {
            draws.push(Draw::random());
            i = i + 1;
        }
        let trigger = sample();
        let band = sample();
        proof {
            assert(self.entities.deep_view().len() == self.entities.len());
            assert(draws.deep_view().len() == draws.len());
        }
        let r = self.update_with(&draws, trigger, band);
        proof {
            assert(old(self)@.played(draws.deep_view(), trigger, band, self@, r));
        }
        r
    }

    /// Plays one turn after the player's move, with what was drawn for the
    /// entities and for the spawn: see `WorldView::played`.
    pub fn update_with(&mut self, draws: &Vec<Draw>, trigger: u32, band: u32) -> (r: Result<TurnReport, BadResult>)
        requires
            old(self)@.wf(),
            draws.len() == old(self)@.entities.len(),
            band < UNIT,
        ensures
            old(self)@.played(draws.deep_view(), trigger, band, final(self)@, r),
            final(self)@.wf(),
            old(self)@.survived().1 is Ok ==> {
                let toll = old(self)@.survived().0;
                &&& final(self)@.turn == toll.turn
                &&& final(self)@.map == toll.map
                &&& final(self)@.difficulty == toll.difficulty
                &&& final(self)@.player == (PlayerView { health: final(self)@.player.health, ..toll.player })
                &&& final(self)@.player.health <= toll.player.health
                &&& r is Err ==> r == Err::<TurnReport, BadResult>(BadResult::ViolentDeath)
                    && final(self)@.player.health == 0
                &&& r matches Ok(report) ==> {
                    &&& report.thirst_damage == old(self)@.survived().1->Ok_0
                    &&& forall|i: int|
                        0 <= i < report.outcomes.len() ==> attack_outcome((#[trigger] report.outcomes[i])@)
                    &&& final(self)@.entities.len() <= old(self)@.entities.len() + 1
                    &&& final(self)@.entities.len() <= old(self)@.entities.len()
                        || final(self)@.entities.len() <= max_entities_at(toll.turn)
                    &&& report.spawned ==> final(self)@.entities.len() <= max_entities_at(toll.turn)
                    &&& forall|i: int|
                        0 <= i < final(self)@.entities.len() ==> (#[trigger] final(self)@.entities[i]).alive
                }
            },
    {
        let thirst_damage = match self.survival_tick() {
            Ok(hurt) => hurt,
            Err(bad) => {
                return Err(bad);
            },
        };
        let outcomes = match self.entity_tick_with(draws) {
            Ok(outcomes) => outcomes,
            Err(bad) => {
                return Err(bad);
            },
        };
        let ghost round = self@;
        let spawned = match Entity::spawn_from(self, trigger, band) {
            Some(entity) => {
                let ghost before = self.entities.deep_view();
                self.entities.push(entity);
                proof {
                    assert(self.entities.deep_view() =~= before.push(entity@));
                    assert(round.spawned(entity@, trigger, band));
                    assert(self@ == round.with_entity(entity@));
                    lemma_push_wf(before, entity@);
                }
                true
            },
            None => false,
        };
        Ok(TurnReport { thirst_damage, outcomes, spawned })
    }

    /// The number of entities that the active sector holds at most in this
    /// turn.
    pub fn max_entities(&self) -> (r: u32)
        ensures
            r == max_entities_at(self.turn),
            4 <= r <= 64,
    {
        let grown = 4 + self.turn / 20;
        let limit = ((WIDTH * HEIGHT) as u32) / 6;
        if grown < limit {
            grown
        } else {
            limit
        }
    }

    /// The factor by which the chance of a spawn has grown in this turn.
    pub fn spawn_chance_coeff(&self) -> (r: Factor)
        ensures
            r == spawn_chance_at(self.turn),
            r.wf(),
    {
        Factor { num: self.turn.saturating_add(15), den: 15 }
    }
}

/// The chance of a spawn never shrinks as turns pass: a sample that
/// triggers a spawn in one turn triggers one in every later turn.
pub proof fn lemma_spawn_chance_monotonic(earlier: u32, later: u32, sample: u32)
    requires
        earlier <= later,
        crate::chance::spec_spawn_triggered(spawn_chance_at(earlier), sample),
    ensures
        crate::chance::spec_spawn_triggered(spawn_chance_at(later), sample),
{
    let before = spawn_chance_at(earlier).num as int;
    let after = spawn_chance_at(later).num as int;
    assert(before * UNIT <= after * UNIT) by (nonlinear_arith)
        requires
            before <= after,
    ;
}

/// The most entities a sector ever holds never shrinks as turns pass.
pub proof fn lemma_max_entities_monotonic(earlier: u32, later: u32)
    requires
        earlier <= later,
    ensures
        max_entities_at(earlier) <= max_entities_at(later),
{
}

/// Keeping the entities that persist twice keeps the same entities as
/// keeping them once.
pub proof fn lemma_kept_twice(entities: Seq<EntityView>)
    ensures
        kept(kept(entities)) == kept(entities),
    decreases entities.len(),
{
    if entities.len() > 0 {
        let front = entities.drop_last();
        let last = entities.last();
        lemma_kept_twice(front);
        if last.persist {
            let once = kept(front).push(last);
            assert(once.drop_last() =~= kept(front));
            assert(once.last() == last);
        }
    }
}

/// An entity that persists is among the entities that are kept.
pub proof fn lemma_persistent_kept(entities: Seq<EntityView>, i: int)
    requires
        0 <= i < entities.len(),
        entities[i].persist,
    ensures
        exists|j: int| 0 <= j < kept(entities).len() && #[trigger] kept(entities)[j] == entities[i],
    decreases entities.len(),
{
    let front = entities.drop_last();
    let last = entities.last();
    if i == entities.len() - 1 {
        assert(kept(entities)[kept(front).len() as int] == entities[i]);
    } else {
        assert(front[i] == entities[i]);
        lemma_persistent_kept(front, i);
        let j = choose|j: int| 0 <= j < kept(front).len() && #[trigger] kept(front)[j] == front[i];
        assert(kept(entities)[j] == entities[i]);
    }
}

/// An entity that does not persist is not among the entities that are
/// kept.
pub proof fn lemma_fleeting_dropped(entities: Seq<EntityView>, entity: EntityView)
    requires
        !entity.persist,
    ensures
        forall|j: int| 0 <= j < kept(entities).len() ==> #[trigger] kept(entities)[j] != entity,
{
    lemma_kept(entities);
}

/// Crossing over to another sector leaves exactly the entities that
/// persist behind in the sector that is left, and coming back at once finds
/// exactly these again.
pub proof fn lemma_crossing_keeps_persistent(world: WorldView, there: Seq<char>)
    requires
        world.wf(),
        registered(world.map.sectors, there),
    ensures
        world.moved_into(there).map.sectors[world.map.current].entities == kept(world.entities),
        world.moved_into(there).moved_into(world.map.sector().id).map.current == world.map.current,
        world.moved_into(there).moved_into(world.map.sector().id).entities == kept(world.entities),
{
    let here = world.map.sector().id;
    let at = world.map.current;
    let sectors = world.map.sectors;
    let first = sectors.update(at, SectorView { entities: kept(world.entities), ..sectors[at] });
    let away = world.moved_into(there);
    assert(away.map.sectors == first);
    crate::map::lemma_same_names_index(sectors, first, there);
    lemma_index_of(sectors, there);
    let other = index_of(first, there);
    assert(away.map.current == other);
    let second = first.update(other, SectorView { entities: kept(away.entities), ..first[other] });
    let back = away.moved_into(away.map.sector().id);
    assert(first[other].id == there);
    assert(second[at].id == here);
    crate::map::lemma_same_names_index(sectors, second, here);
    lemma_index_of(sectors, here);
    assert(index_of(sectors, here) == at) by {
        if index_of(sectors, here) != at {
            assert(sectors[index_of(sectors, here)].id == sectors[at].id);
        }
    }
    let again = away.moved_into(here);
    assert(again.map.sectors == second);
    assert(again.map.current == at);
    if other == at {
        lemma_kept_twice(world.entities);
    }
}

/// A step across an edge to a neighbor leaves exactly the entities that
/// persist behind, and going back at once finds exactly these again: an
/// entity that persists is kept, one that does not is gone.
pub proof fn lemma_step_across(world: WorldView, direction: Direction)
    requires
        world.wf(),
        world.leaves(direction),
        world.map.sector().neighbors[direction.spec_index()] is Some,
    ensures
        world.go(direction).1 == Ok::<GoodView, BadResult>(GoodView::Proceed),
        world.go(direction).0.map.sector().id == world.map.sector().neighbors[direction.spec_index()]->0,
        world.go(direction).0.map.sectors[world.map.current].entities == kept(world.entities),
        world.go(direction).0.moved_into(world.map.sector().id).entities == kept(world.entities),
{
    let there = world.map.sector().neighbors[direction.spec_index()]->0;
    assert(world.map.sector().wf());
    assert(crate::map::links_closed(world.map.sectors, world.map.sector()));
    assert(registered(world.map.sectors, there));
    lemma_crossing_keeps_persistent(world, there);
    let away = world.moved_into(there);
    let stored = world.map.with_sector(SectorView { entities: kept(world.entities), ..world.map.sector() });
    crate::map::lemma_same_names_index(world.map.sectors, stored.sectors, there);
    lemma_index_of(world.map.sectors, there);
}

/// A turn in which hunger outgrows its cap ends in death by hunger and in
/// nothing else. If the player's hunger is at its cap and thirst stays
/// within its own, in a sector that lets hunger grow, then in the next turn
/// that is a multiple of the hunger interval the turn counter advances by
/// one, hunger is one above its cap, the outcome is death by hunger, and
/// nothing else has happened to the world: health is as it was, no entity
/// has moved, none has spawned.
pub proof fn lemma_starves(
    world: WorldView,
    draws: Seq<DrawView>,
    trigger: u32,
    band: u32,
    after: WorldView,
    result: Result<TurnReport, BadResult>,
)
    requires
        world.played(draws, trigger, band, after, result),
        world.map.sector().do_survival,
        world.turn < u32::MAX,
        (world.turn + 1) % (HUNGER_INTERVAL as int) == 0,
        world.player.hunger == world.player.hunger_cap.value(),
        world.player.hunger < u32::MAX,
        world.survived().0.player.thirst <= world.player.thirst_cap.value(),
    ensures
        result == Err::<TurnReport, BadResult>(BadResult::HungerDeath),
        after.turn == world.turn + 1,
        after.player.hunger == world.player.hunger_cap.value() + 1,
        after.player.health == world.player.health,
        after.entities == world.entities,
        after.map == world.map,
{
}

/// Thirst is looked at before hunger. In a turn in which thirst is above
/// its cap, the outcome is a loss of health or death by thirst, never death
/// by hunger, however hungry the player is. Death by hunger comes exactly
/// when thirst is within its cap and hunger is above its own. A player
/// whose hunger is at its cap, in a sector that lets hunger grow, dies of
/// hunger in the next turn that is a multiple of the hunger interval,
/// unless thirst is above its cap in that turn.
pub proof fn lemma_survival_order(world: WorldView)
    ensures
        world.survived().0.player.thirst > world.player.thirst_cap.value() ==> world.survived().1 == Err::<
            bool,
            BadResult,
        >(BadResult::ThirstDeath) || world.survived().1 == Ok::<bool, BadResult>(true),
        world.survived().1 == Err::<bool, BadResult>(BadResult::HungerDeath) <==> world.survived().0.player.thirst
            <= world.player.thirst_cap.value() && world.survived().0.player.hunger
            > world.player.hunger_cap.value(),
        world.player.hunger == world.player.hunger_cap.value() && world.player.hunger < u32::MAX
            && world.map.sector().do_survival && raised(world.turn, 1) % HUNGER_INTERVAL == 0
            && world.survived().0.player.thirst <= world.player.thirst_cap.value() ==> world.survived().1 == Err::<
            bool,
            BadResult,
        >(BadResult::HungerDeath),
{
}

} // verus!
