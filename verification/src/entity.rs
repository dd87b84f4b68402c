//! Entities: what they are, where they spawn, how they move and what happens
//! when the player meets one.

use vstd::prelude::*;
use vstd::arithmetic::mul::lemma_mul_upper_bound;
use vstd::std_specs::ops::MulSpec;
use crate::chance::{random_range, sample, spawn_triggered, spec_spawn_triggered, spec_tile_accepted,
    spec_within_percent, tile_accepted, within_percent, lemma_bias_accepts, UNIT};
use crate::difficulty::{Difficulty, DifficultyMul, lemma_plain_composes};
use crate::input::{BadResult, GoodResult, GoodView, TurnResult, TurnView, turn_view};
use crate::item::{Item, ItemView, lowered, raised};
use crate::map::{Direction, SectorMap, SectorMapView, Tile, TileKind};
use crate::player::{Player, PlayerView};
use crate::sector::{HEIGHT, WIDTH};
use crate::world::{World, WorldView, max_entities_at, spawn_chance_at};

verus! {

/// The mathematical value of an entity's kind.
pub enum KindView {
    Food { food: u32 },
    Enemy { health: u32, damage: u32 },
    Boss { health: u32, damage: u32, id: u32, damage_gain: u32, block: (Direction, Tile) },
    Item(ItemView),
    Npc { dialogue: Seq<Seq<char>>, dialogue_idx: Option<usize>, items: Seq<(ItemView, usize)>, id: u32 },
}

/// The mathematical value of an entity.
pub struct EntityView {
    pub x: u32,
    pub y: u32,
    pub kind: KindView,
    pub alive: bool,
    pub persist: bool,
}

impl KindView {
    /// The stable identifier of a boss, an item or a character; food and
    /// enemies have none.
    pub open spec fn id(self) -> Option<u32> {
        match self {
            KindView::Boss { id, .. } => Some(id),
            KindView::Npc { id, .. } => Some(id),
            KindView::Item(item) => Some(item.id),
            _ => None,
        }
    }

    /// The chance, in hundredths, that an entity of this kind settles on a
    /// tile of the given kind. Only food and enemies spawn, and only on
    /// grass, forest and hill.
    pub open spec fn spawn_percentage(self, tile: TileKind) -> u32 {
        match tile {
            TileKind::Grass => match self {
                KindView::Food { .. } => 75,
                KindView::Enemy { .. } => 15,
                _ => 0,
            },
            TileKind::Forest => match self {
                KindView::Food { .. } => 60,
                KindView::Enemy { .. } => 25,
                _ => 0,
            },
            TileKind::Hill => match self {
                KindView::Food { .. } => 10,
                KindView::Enemy { .. } => 75,
                _ => 0,
            },
            _ => 0,
        }
    }
}

impl EntityView {
    /// The entity at another place.
    pub open spec fn at(self, x: u32, y: u32) -> EntityView {
        EntityView { x, y, ..self }
    }

    /// The tile next to the entity that a defeated boss opens.
    pub open spec fn block_target(self) -> (u32, u32)
        recommends
            self.kind is Boss,
    {
        self.kind->Boss_block.0.spec_wrapping_step(self.x, self.y)
    }

    /// An entity is well formed when it stands inside the grid, the tile
    /// that a boss opens lies inside the grid, and a character's dialogue
    /// cursor points at one of its lines.
    pub open spec fn wf(self) -> bool {
        &&& self.x < WIDTH
        &&& self.y < HEIGHT
        &&& self.kind is Boss ==> self.block_target().0 < WIDTH && self.block_target().1 < HEIGHT
        &&& self.kind matches KindView::Npc { dialogue, dialogue_idx: Some(i), .. } ==> i < dialogue.len()
    }
}

/// Whether no identifier is borne by two entities of a list.
pub open spec fn distinct_ids(entities: Seq<EntityView>) -> bool {
    forall|i: int, j: int|
        0 <= i < entities.len() && 0 <= j < entities.len() && i != j && (#[trigger] entities[i]).kind.id() is Some
            ==> entities[i].kind.id() != (#[trigger] entities[j]).kind.id()
}

/// Whether every entity of a list is well formed and no identifier is
/// borne by two of them.
pub open spec fn all_wf(entities: Seq<EntityView>) -> bool {
    &&& forall|i: int| 0 <= i < entities.len() ==> (#[trigger] entities[i]).wf()
    &&& distinct_ids(entities)
}

/// A list without one of its entities is well formed if it was.
pub proof fn lemma_remove_wf(entities: Seq<EntityView>, at: int)
    requires
        all_wf(entities),
        0 <= at < entities.len(),
    ensures
        all_wf(entities.remove(at)),
{
    let after = entities.remove(at);
    assert forall|i: int| 0 <= i < after.len() implies (#[trigger] after[i]).wf() by {
        if i < at {
            assert(after[i] == entities[i]);
        } else {
            assert(after[i] == entities[i + 1]);
        }
    }
    assert forall|i: int, j: int|
        0 <= i < after.len() && 0 <= j < after.len() && i != j && (#[trigger] after[i]).kind.id() is Some
        implies after[i].kind.id() != (#[trigger] after[j]).kind.id() by {
        let a = if i < at { i } else { i + 1 };
        let b = if j < at { j } else { j + 1 };
        assert(after[i] == entities[a]);
        assert(after[j] == entities[b]);
    }
}

/// A list with one more entity is well formed if it was, the entity is,
/// and the entity's identifier, if it has one, is new to the list.
pub proof fn lemma_push_wf(entities: Seq<EntityView>, entity: EntityView)
    requires
        all_wf(entities),
        entity.wf(),
        entity.kind.id() is Some ==> forall|i: int|
            0 <= i < entities.len() ==> (#[trigger] entities[i]).kind.id() != entity.kind.id(),
    ensures
        all_wf(entities.push(entity)),
{
    let after = entities.push(entity);
    assert forall|i: int| 0 <= i < after.len() implies (#[trigger] after[i]).wf() by {
        if i < entities.len() {
            assert(after[i] == entities[i]);
        }
    }
    assert forall|i: int, j: int|
        0 <= i < after.len() && 0 <= j < after.len() && i != j && (#[trigger] after[i]).kind.id() is Some
        implies after[i].kind.id() != (#[trigger] after[j]).kind.id() by {
        if i < entities.len() {
            assert(after[i] == entities[i]);
        }
        if j < entities.len() {
            assert(after[j] == entities[j]);
        }
    }
}

/// Whether every entity of a list is well formed and no identifier is
/// borne by two of them.
pub fn check_entities(entities: &Vec<Entity>) -> (r: bool)
    ensures
        r == all_wf(entities.deep_view()),
{
    let ghost all = entities.deep_view();
    let mut i: usize = 0;
    while i < entities.len()
        invariant
            i <= entities.len(),
            all == entities.deep_view(),
            forall|j: int| 0 <= j < i ==> (#[trigger] all[j]).wf(),
        decreases entities.len() - i,
    {
        if !entities[i].check() {
            assert(!all[i as int].wf());
            return false;
        }
        assert(all[i as int].wf());
        i = i + 1;
    }
    let mut a: usize = 0;
    while a < entities.len()
        invariant
            a <= entities.len(),
            all == entities.deep_view(),
            forall|i: int, j: int|
                0 <= j < i < a ==> (#[trigger] all[i]).kind.id() is None || all[i].kind.id() != (#[trigger] all[j]).kind.id(),
        decreases entities.len() - a,
    {
        let id = entities[a].id();
        if id.is_some() {
            let mut b: usize = 0;
            while b < a
                invariant
                    b <= a,
                    a < entities.len(),
                    all == entities.deep_view(),
                    id is Some,
                    id == all[a as int].kind.id(),
                    forall|j: int| 0 <= j < b ==> id != (#[trigger] all[j]).kind.id(),
                decreases a - b,
            {
                let other = entities[b].id();
                if other == id {
                    proof {
                        assert(all[b as int].kind.id() is Some);
                        assert(all[b as int].kind.id() == all[a as int].kind.id());
                        assert(!distinct_ids(all));
                    }
                    return false;
                }
                b = b + 1;
            }
        }
        a = a + 1;
    }
    proof {
        assert forall|i: int, j: int|
            0 <= i < all.len() && 0 <= j < all.len() && i != j && (#[trigger] all[i]).kind.id() is Some
            implies all[i].kind.id() != (#[trigger] all[j]).kind.id() by {
            if j < i {
            } else {
                assert(all[j].kind.id() is None || all[j].kind.id() != all[i].kind.id());
            }
        }
    }
    true
}

/// What an entity is, with the state that belongs to its kind.
#[derive(Debug, PartialEq, Eq, Hash)]
pub enum EntityKind {
    /// Something to eat, worth `food` hunger.
    Food { food: u32 },
    /// A wandering enemy.
    Enemy { health: u32, damage: u32 },
    /// A guardian. Defeating it raises the player's damage by `damage_gain`
    /// and replaces the tile next to it, in the direction of `block`, by the
    /// tile of `block`.
    Boss { health: u32, damage: u32, id: u32, damage_gain: u32, block: (Direction, Tile) },
    /// An item lying on the ground.
    Item(Item),
    /// A character who speaks one line per meeting, and hands over each item
    /// of `items` at the line it is tied to.
    Npc { dialogue: Vec<String>, dialogue_idx: Option<usize>, items: Vec<(Item, usize)>, id: u32 },
}

impl View for EntityKind {
    type V = KindView;

    open spec fn view(&self) -> KindView {
        match *self {
            EntityKind::Food { food } => KindView::Food { food },
            EntityKind::Enemy { health, damage } => KindView::Enemy { health, damage },
            EntityKind::Boss { health, damage, id, damage_gain, block } => KindView::Boss {
                health,
                damage,
                id,
                damage_gain,
                block,
            },
            EntityKind::Item(item) => KindView::Item(item@),
            EntityKind::Npc { dialogue, dialogue_idx, items, id } => KindView::Npc {
                dialogue: dialogue.deep_view(),
                dialogue_idx,
                items: items.deep_view(),
                id,
            },
        }
    }
}

impl DeepView for EntityKind {
    type V = KindView;

    open spec fn deep_view(&self) -> KindView {
        self@
    }
}

impl Clone for EntityKind {
    fn clone(&self) -> (r: EntityKind)
        ensures
            r@ == self@,
    {
        match self {
            EntityKind::Food { food } => EntityKind::Food { food: *food },
            EntityKind::Enemy { health, damage } => EntityKind::Enemy { health: *health, damage: *damage },
            EntityKind::Boss { health, damage, id, damage_gain, block } => EntityKind::Boss {
                health: *health,
                damage: *damage,
                id: *id,
                damage_gain: *damage_gain,
                block: *block,
            },
            EntityKind::Item(item) => EntityKind::Item(item.clone()),
            EntityKind::Npc { dialogue, dialogue_idx, items, id } => {
                let lines = dialogue.clone();
                let gifts = clone_gifts(items);
                proof {
                    assert(lines.deep_view() =~= dialogue.deep_view());
                }
                EntityKind::Npc { dialogue: lines, dialogue_idx: *dialogue_idx, items: gifts, id: *id }
            },
        }
    }
}

fn clone_gifts(items: &Vec<(Item, usize)>) -> (r: Vec<(Item, usize)>)
    ensures
        r.deep_view() == items.deep_view(),
{
    let mut r: Vec<(Item, usize)> = Vec::new();
    let mut i: usize = 0;
    while i < items.len()
        invariant
            i <= items.len(),
            r.len() == i,
            forall|j: int| 0 <= j < i ==> r[j].0@ == items[j].0@ && r[j].1 == items[j].1,
        decreases items.len() - i,
    {
        r.push((items[i].0.clone(), items[i].1));
        i = i + 1;
    }
    proof {
        assert(r.deep_view() =~= items.deep_view());
    }
    r
}

impl EntityKind {
    /// The chance, in hundredths, that an entity of this kind settles on
    /// `tile`.
    pub fn spawn_percentage(&self, tile: &Tile) -> (r: u32)
        ensures
            r == self@.spawn_percentage(tile.kind),
            r <= 75,
    {
        match tile.kind {
            TileKind::Water
            | TileKind::Mountain
            | TileKind::Road
            | TileKind::Village
            | TileKind::Building => 0,
            TileKind::Grass => match self {
                EntityKind::Food { .. } => 75,
                EntityKind::Enemy { .. } => 15,
                EntityKind::Boss { .. } | EntityKind::Item(_) | EntityKind::Npc { .. } => 0,
            },
            TileKind::Forest => match self {
                EntityKind::Food { .. } => 60,
                EntityKind::Enemy { .. } => 25,
                EntityKind::Boss { .. } | EntityKind::Item(_) | EntityKind::Npc { .. } => 0,
            },
            TileKind::Hill => match self {
                EntityKind::Food { .. } => 10,
                EntityKind::Enemy { .. } => 75,
                EntityKind::Boss { .. } | EntityKind::Item(_) | EntityKind::Npc { .. } => 0,
            },
        }
    }

    /// The color in which the kind is drawn.
    pub fn color(&self) -> (r: u8)
        ensures
            r == match self@ {
                KindView::Food { .. } => 108u8,
                KindView::Enemy { .. } => 210u8,
                KindView::Boss { .. } => 136u8,
                KindView::Item(_) => 56u8,
                KindView::Npc { .. } => 79u8,
            },
    {
        match self {
            EntityKind::Food { .. } => 108,
            EntityKind::Enemy { .. } => 210,
            EntityKind::Boss { .. } => 136,
            EntityKind::Item(_) => 56,
            EntityKind::Npc { .. } => 79,
        }
    }

    /// The character as which the kind is drawn.
    pub fn sprite(&self) -> (r: char)
        ensures
            r == match self@ {
                KindView::Food { .. } => '+',
                KindView::Enemy { .. } => '!',
                KindView::Boss { .. } => '#',
                KindView::Item(_) => '?',
                KindView::Npc { .. } => '&',
            },
    {
        match self {
            EntityKind::Food { .. } => '+',
            EntityKind::Enemy { .. } => '!',
            EntityKind::Boss { .. } => '#',
            EntityKind::Item(_) => '?',
            EntityKind::Npc { .. } => '&',
        }
    }
}

/// Something that stands on a tile of a sector.
#[derive(Debug, PartialEq, Eq, Hash)]
pub struct Entity {
    pub x: u32,
    pub y: u32,
    pub kind: EntityKind,
    /// Cleared when the entity is eaten, picked up or defeated; its owner
    /// then removes it.
    pub alive: bool,
    /// Whether the entity is kept when the player leaves its sector.
    pub persist: bool,
}

impl View for Entity {
    type V = EntityView;

    open spec fn view(&self) -> EntityView {
        EntityView { x: self.x, y: self.y, kind: self.kind@, alive: self.alive, persist: self.persist }
    }
}

impl DeepView for Entity {
    type V = EntityView;

    open spec fn deep_view(&self) -> EntityView {
        self@
    }
}

impl Clone for Entity {
    fn clone(&self) -> (r: Entity)
        ensures
            r@ == self@,
    {
        Entity { x: self.x, y: self.y, kind: self.kind.clone(), alive: self.alive, persist: self.persist }
    }
}

impl Entity {
    /// A living entity of the given kind at `(x, y)`.
    pub fn new(x: u32, y: u32, kind: EntityKind, persist: bool) -> (r: Entity)
        ensures
            r == (Entity { x, y, kind, alive: true, persist }),
    {
        Entity { x, y, kind, alive: true, persist }
    }

    /// Whether the entity is well formed.
    pub fn check(&self) -> (r: bool)
        ensures
            r == self@.wf(),
    {
        if self.x as usize >= WIDTH || self.y as usize >= HEIGHT {
            return false;
        }
        match &self.kind {
            EntityKind::Boss { block, .. } => {
                let (x, y) = block.0.wrapping_step(self.x, self.y);
                (x as usize) < WIDTH && (y as usize) < HEIGHT
            },
            EntityKind::Npc { dialogue, dialogue_idx, .. } => {
                assert(dialogue.deep_view().len() == dialogue.len());
                match dialogue_idx {
                    Some(i) => *i < dialogue.len(),
                    None => true,
                }
            },
            _ => true,
        }
    }

    /// The line that a character says when it is met next, if it has one
    /// left.
    pub fn speech(&self) -> (r: Option<&str>)
        requires
            self@.wf(),
        ensures
            r.deep_view() == match self@.kind {
                KindView::Npc { dialogue, dialogue_idx: Some(i), .. } => Some(dialogue[i as int]),
                _ => None,
            },
    {
        match &self.kind {
            EntityKind::Npc { dialogue, dialogue_idx, .. } => {
                assert(dialogue.deep_view().len() == dialogue.len());
                match dialogue_idx {
                    Some(i) => Some(dialogue[*i].as_str()),
                    None => None,
                }
            },
            _ => None,
        }
    }

    /// The stable identifier of a boss, an item or a character.
    pub fn id(&self) -> (r: Option<u32>)
        ensures
            r == self@.kind.id(),
    {
        match &self.kind {
            EntityKind::Boss { id, .. } | EntityKind::Npc { id, .. } => Some(*id),
            EntityKind::Item(item) => Some(item.id),
            _ => None,
        }
    }
}

/// The chance, in hundredths, that food moves in a turn.
pub const FOOD_MOVE_PERCENT: u32 = 55;

/// The chance, in hundredths, that an enemy moves in a turn, before it is
/// damped.
pub const ENEMY_MOVE_PERCENT: u32 = 60;

/// How often an entity tries a direction before it stays where it is.
pub const MOVE_ATTEMPTS: u32 = 8;

/// The full passes over the grid after which the bias of a spawn tile has
/// grown to one: half the number of tiles.
pub const BIAS_PASSES: u32 = 192;

/// Whether an item of the given name is among `inventory`.
pub open spec fn holds(inventory: Seq<ItemView>, name: Seq<char>) -> bool {
    exists|i: int| 0 <= i < inventory.len() && (#[trigger] inventory[i]).name == name
}

fn holds_item(inventory: &Vec<Item>, name: &String) -> (r: bool)
    ensures
        r == holds(inventory.deep_view(), name@),
{
    let mut i: usize = 0;
    while i < inventory.len()
        invariant
            i <= inventory.len(),
            forall|j: int| 0 <= j < i ==> (#[trigger] inventory.deep_view()[j]).name != name@,
        decreases inventory.len() - i,
    {
        if inventory[i].name == *name {
            assert(inventory.deep_view()[i as int].name == name@);
            return true;
        }
        assert(inventory.deep_view()[i as int].name != name@);
        i = i + 1;
    }
    false
}

/// What a meeting of the player with an entity leads to.
pub struct Meeting {
    /// The entity after the meeting.
    pub entity: EntityView,
    /// The player after the meeting.
    pub player: PlayerView,
    /// The tile that the meeting replaces in the active sector, if any.
    pub opened: Option<(u32, u32, Tile)>,
    /// The outcome that is reported.
    pub result: TurnView,
}

impl PlayerView {
    /// The player after picking up `item`: its effect is applied, and it is
    /// the last item of the inventory.
    pub open spec fn with_item(self, item: ItemView) -> PlayerView {
        let changed = item.applied(self);
        PlayerView { inventory: changed.inventory.push(item), ..changed }
    }
}

impl EntityView {
    /// A fight that the player does not win at once. If the enemy's damage
    /// reaches the player's health, the player dies with health zero and
    /// the enemy is unchanged. Otherwise both lose health at the same time.
    pub open spec fn fight_on(self, player: PlayerView, health: u32, damage: u32, weakened: KindView) -> Meeting {
        if damage >= player.health {
            Meeting {
                entity: self,
                player: PlayerView { health: 0, ..player },
                opened: None,
                result: Err(BadResult::ViolentDeath),
            }
        } else {
            Meeting {
                entity: EntityView { kind: weakened, ..self },
                player: PlayerView { health: (player.health - damage) as u32, ..player },
                opened: None,
                result: Ok(GoodView::Fight(damage, (health - player.damage.value()) as u32)),
            }
        }
    }

    /// What happens when the player and the entity meet.
    ///
    /// Food is eaten: hunger falls by its worth, health rises by two up to
    /// the maximum. An enemy or a boss dies if the player's damage reaches
    /// its health, and this is decided first: a player who would die in the
    /// same exchange wins instead. A dying boss raises the player's damage
    /// and opens the tile it guards. An item is picked up. A character says
    /// its current line, hands over the first of its items if that item is
    /// tied to this line and the player holds none of that name, and moves
    /// on to its next line, or falls silent after the last.
    pub open spec fn meet(self, player: PlayerView) -> Meeting {
        match self.kind {
            KindView::Food { food } => Meeting {
                entity: EntityView { alive: false, ..self },
                player: PlayerView {
                    hunger: lowered(player.hunger, food),
                    health: if raised(player.health, 2) < player.max_health.value() {
                        raised(player.health, 2)
                    } else {
                        player.max_health.value()
                    },
                    ..player
                },
                opened: None,
                result: Ok(GoodView::Ate(food)),
            },
            KindView::Enemy { health, damage } => {
                if player.damage.value() >= health {
                    Meeting {
                        entity: EntityView { alive: false, ..self },
                        player,
                        opened: None,
                        result: Ok(GoodView::WonFight(false)),
                    }
                } else {
                    self.fight_on(
                        player,
                        health,
                        damage,
                        KindView::Enemy { health: (health - player.damage.value()) as u32, damage },
                    )
                }
            },
            KindView::Boss { health, damage, id, damage_gain, block } => {
                if player.damage.value() >= health {
                    Meeting {
                        entity: EntityView { alive: false, ..self },
                        player: PlayerView { damage: player.damage.shifted(damage_gain, false), ..player },
                        opened: Some((self.block_target().0, self.block_target().1, block.1)),
                        result: Ok(GoodView::DefeatedBoss(id)),
                    }
                } else {
                    self.fight_on(
                        player,
                        health,
                        damage,
                        KindView::Boss {
                            health: (health - player.damage.value()) as u32,
                            damage,
                            id,
                            damage_gain,
                            block,
                        },
                    )
                }
            },
            KindView::Item(item) => Meeting {
                entity: EntityView { alive: false, ..self },
                player: player.with_item(item),
                opened: None,
                result: Ok(GoodView::PickedUpItem(item.name)),
            },
            KindView::Npc { dialogue, dialogue_idx, items, id } => match dialogue_idx {
                None => Meeting { entity: self, player, opened: None, result: Ok(GoodView::Menued) },
                Some(idx) => {
                    let gives = items.len() > 0 && items[0].1 == idx && !holds(player.inventory, items[0].0.name);
                    let next = if idx + 1 < dialogue.len() {
                        Some((idx + 1) as usize)
                    } else {
                        None
                    };
                    Meeting {
                        entity: EntityView {
                            kind: KindView::Npc {
                                dialogue,
                                dialogue_idx: next,
                                items: if gives {
                                    items.drop_first()
                                } else {
                                    items
                                },
                                id,
                            },
                            ..self
                        },
                        player: if gives {
                            player.with_item(items[0].0)
                        } else {
                            player
                        },
                        opened: None,
                        result: Ok(GoodView::Menued),
                    }
                },
            },
        }
    }
}

impl SectorMapView {
    /// The map after a meeting: the opened tile, if any, is set in the
    /// active sector.
    pub open spec fn after(self, meeting: Meeting) -> SectorMapView {
        match meeting.opened {
            Some((x, y, tile)) => self.with_sector(self.sector().with_tile(x, y, tile)),
            None => self,
        }
    }
}

impl WorldView {
    /// Whether an entity stands at `(x, y)`.
    pub open spec fn occupied(self, x: u32, y: u32) -> bool {
        exists|i: int| 0 <= i < self.entities.len() && (#[trigger] self.entities[i]).x == x && self.entities[i].y == y
    }

    /// Whether a wandering entity may step onto `(x, y)`: the tile lies in
    /// the grid and can be walked on, no entity stands there, and the
    /// player does not stand there unless the entity walks into the player
    /// on purpose.
    pub open spec fn admits(self, x: u32, y: u32, into_player: bool) -> bool {
        &&& into_player || !(self.player.x == x && self.player.y == y)
        &&& !self.occupied(x, y)
        &&& self.map.sector().tile(x, y) matches Some(t) && t.kind.spec_walkable()
    }

    /// Whether an entity of the given kind may spawn at `(x, y)`: the tile
    /// lies in the grid, the player does not stand there, and the kind has a
    /// share of tiles of this sort.
    pub open spec fn spawnable(self, kind: KindView, x: u32, y: u32) -> bool {
        &&& x < WIDTH
        &&& y < HEIGHT
        &&& !(self.player.x == x && self.player.y == y)
        &&& kind.spawn_percentage(self.map.sector().tiles[y as int][x as int].kind) > 0
    }

    /// Whether the active sector has a tile on which the kind may spawn.
    pub open spec fn has_spawn_tile(self, kind: KindView) -> bool {
        exists|x: u32, y: u32| self.spawnable(kind, x, y)
    }

    /// Whether the active sector has a tile for what a band brings.
    pub open spec fn has_tile_for(self, band: Band) -> bool {
        match band {
            Band::Food => self.has_spawn_tile(food_of_any_worth()),
            Band::Enemy => self.has_spawn_tile(enemy_of_any_strength()),
            Band::Neither => false,
        }
    }

    /// The world after a meeting of the player with an entity.
    pub open spec fn after(self, meeting: Meeting) -> WorldView {
        WorldView { player: meeting.player, map: self.map.after(meeting), ..self }
    }
}

/// What an entity that has moved does where it stands: on the player's tile
/// it meets the player, elsewhere nothing happens.
pub open spec fn arrival(entity: EntityView, world: WorldView) -> (EntityView, WorldView, TurnView) {
    if entity.x == world.player.x && entity.y == world.player.y {
        let meeting = entity.meet(world.player);
        (meeting.entity, world.after(meeting), meeting.result)
    } else {
        (entity, world, Ok(GoodView::Proceed))
    }
}

/// Whether `(x, y)` is where an entity at `(from_x, from_y)` may be after a
/// try to move: where it was, or on a tile one step away that admits it.
pub open spec fn moved_to(world: WorldView, from_x: u32, from_y: u32, x: u32, y: u32, into_player: bool) -> bool {
    ||| (x == from_x && y == from_y)
    ||| (exists|d: Direction| #[trigger] d.spec_step(from_x, from_y) == (x, y)) && world.admits(x, y, into_player)
}

/// Where an entity at `(x, y)` is after it has tried the steps in
/// `directions` in order: on the tile of the first step that is admitted, or
/// where it was if none is.
pub open spec fn first_admitted(
    world: WorldView,
    x: u32,
    y: u32,
    directions: Seq<Direction>,
    into_player: bool,
) -> (u32, u32)
    decreases directions.len(),
{
    if directions.len() == 0 {
        (x, y)
    } else {
        let target = directions[0].spec_step(x, y);
        if world.admits(target.0, target.1, into_player) {
            target
        } else {
            first_admitted(world, x, y, directions.drop_first(), into_player)
        }
    }
}

/// An entity that has tried some steps is where it was, or one admitted
/// step away.
pub proof fn lemma_first_admitted(world: WorldView, x: u32, y: u32, directions: Seq<Direction>, into_player: bool)
    ensures
        moved_to(
            world,
            x,
            y,
            first_admitted(world, x, y, directions, into_player).0,
            first_admitted(world, x, y, directions, into_player).1,
            into_player,
        ),
    decreases directions.len(),
{
    if directions.len() > 0 {
        let target = directions[0].spec_step(x, y);
        if world.admits(target.0, target.1, into_player) {
            assert(directions[0].spec_step(x, y) == (target.0, target.1));
        } else {
            lemma_first_admitted(world, x, y, directions.drop_first(), into_player);
        }
    }
}

/// The damping of an enemy's urge to move by one of its stats, in
/// millionths: one half for a stat of zero, rising with the stat towards
/// one as half the hyperbolic tangent of the stat plus one half does, to
/// six decimal places.
pub open spec fn spec_damping(stat: u32) -> u32 {
    if stat == 0 {
        500_000
    } else if stat == 1 {
        880_797
    } else if stat == 2 {
        982_014
    } else if stat == 3 {
        997_527
    } else if stat == 4 {
        999_665
    } else if stat == 5 {
        999_955
    } else if stat == 6 {
        999_994
    } else if stat == 7 {
        999_999
    } else {
        1_000_000
    }
}

/// The damping of an enemy's urge to move by one of its stats, in
/// millionths.
pub fn damping(stat: u32) -> (r: u32)
    ensures
        r == spec_damping(stat),
        500_000 <= r <= 1_000_000,
{
    if stat == 0 {
        500_000
    } else if stat == 1 {
        880_797
    } else if stat == 2 {
        982_014
    } else if stat == 3 {
        997_527
    } else if stat == 4 {
        999_665
    } else if stat == 5 {
        999_955
    } else if stat == 6 {
        999_994
    } else if stat == 7 {
        999_999
    } else {
        1_000_000
    }
}

/// Whether an enemy moves: the fraction that `impulse` stands for is at
/// most the enemy's rate of 60 hundredths, damped by its health and by its
/// damage.
pub open spec fn spec_enemy_moves(health: u32, damage: u32, impulse: u32) -> bool {
    impulse * 100 * 1_000_000 * 1_000_000 <= ENEMY_MOVE_PERCENT * spec_damping(health) * spec_damping(damage) * UNIT
}

/// Whether an enemy moves.
pub fn enemy_moves(health: u32, damage: u32, impulse: u32) -> (r: bool)
    ensures
        r == spec_enemy_moves(health, damage, impulse),
{
    let by_health = damping(health) as u128;
    let by_damage = damping(damage) as u128;
    proof {
        let million: int = 1_000_000;
        lemma_mul_upper_bound(ENEMY_MOVE_PERCENT * by_health, 60 * million, by_damage as int, million);
        lemma_mul_upper_bound(
            ENEMY_MOVE_PERCENT * by_health * by_damage,
            60 * million * million,
            UNIT as int,
            0x100_0000,
        );
    }
    let left: u128 = (impulse as u128) * 100 * 1_000_000 * 1_000_000;
    let right: u128 = (ENEMY_MOVE_PERCENT as u128) * by_health * by_damage * (UNIT as u128);
    left <= right
}

/// One turn of an entity, given the sample and the directions drawn for
/// it. Food moves if the sample is within 55 hundredths, and then avoids
/// the player. An enemy moves if the sample is within its damped rate; it
/// walks into the player on purpose, and meets the player if it ends the
/// move on the player's tile. Bosses, items and characters stay where they
/// are.
pub open spec fn acted(entity: EntityView, world: WorldView, impulse: u32, directions: Seq<Direction>) -> (
    EntityView,
    WorldView,
    TurnView,
) {
    match entity.kind {
        KindView::Food { .. } => {
            if spec_within_percent(impulse, FOOD_MOVE_PERCENT) {
                let place = first_admitted(world, entity.x, entity.y, directions, false);
                (entity.at(place.0, place.1), world, Ok(GoodView::Proceed))
            } else {
                (entity, world, Ok(GoodView::Proceed))
            }
        },
        KindView::Enemy { health, damage } => {
            if spec_enemy_moves(health, damage, impulse) {
                let place = first_admitted(world, entity.x, entity.y, directions, true);
                arrival(entity.at(place.0, place.1), world)
            } else {
                (entity, world, Ok(GoodView::Proceed))
            }
        },
        _ => (entity, world, Ok(GoodView::Proceed)),
    }
}

/// The mathematical value of what is drawn for the turn of one entity.
pub struct DrawView {
    pub impulse: u32,
    pub directions: Seq<Direction>,
}

/// What is drawn for the turn of one entity: a sample that decides whether
/// it moves, and the directions that it tries.
#[derive(Debug)]
pub struct Draw {
    pub impulse: u32,
    pub directions: Vec<Direction>,
}

impl View for Draw {
    type V = DrawView;

    open spec fn view(&self) -> DrawView {
        DrawView { impulse: self.impulse, directions: self.directions@ }
    }
}

impl DeepView for Draw {
    type V = DrawView;

    open spec fn deep_view(&self) -> DrawView {
        self@
    }
}

impl Draw {
    /// A fresh sample and as many random directions as an entity tries in
    /// a turn.
    pub fn random() -> (r: Draw)
        ensures
            r@.impulse < UNIT,
            r@.directions.len() == MOVE_ATTEMPTS,
    {
        let impulse = sample();
        let mut directions: Vec<Direction> = Vec::new();
        let mut i: u32 = 0;
        while i < MOVE_ATTEMPTS
            invariant
                i <= MOVE_ATTEMPTS,
                directions@.len() == i,
            decreases MOVE_ATTEMPTS - i,
        {
            directions.push(Direction::from_index(random_range(0, 4)));
            i = i + 1;
        }
        Draw { impulse, directions }
    }
}

/// The number of tiles of a sector.
pub const TILES: u32 = 384;

/// The tile that a search for a spawn tile finds, given the samples that it
/// draws, from a point of the search on: in the pass `pass`, with `left`
/// tiles of the pass still to come.
///
/// A pass goes over the grid from the last tile of the last row to the
/// first tile of the first row. A tile on which the kind may not spawn is
/// passed over. Any other tile uses up one sample, and is taken if the
/// sample passes `tile_accepted` for the kind's share of the tile and for
/// the number of passes made before this one: the bias grows with every
/// pass. After a pass without a tile taken, the next pass begins. The search
/// finds nothing if the samples run out, or if the passes do: after 192
/// passes the bias is one, and the next pass takes its first tile.
pub open spec fn searched(world: WorldView, kind: KindView, samples: Seq<u32>, pass: nat, left: nat) -> Option<
    (u32, u32),
>
    decreases samples.len(), BIAS_PASSES + 1 - pass, left,
{
    if pass > BIAS_PASSES {
        None
    } else if left == 0 {
        searched(world, kind, samples, pass + 1, TILES as nat)
    } else {
        let x = ((left - 1) % (WIDTH as int)) as u32;
        let y = ((left - 1) / (WIDTH as int)) as u32;
        if !world.spawnable(kind, x, y) {
            searched(world, kind, samples, pass, (left - 1) as nat)
        } else if samples.len() == 0 {
            None
        } else if spec_tile_accepted(
            kind.spawn_percentage(world.map.sector().tiles[y as int][x as int].kind),
            pass as u32,
            samples[0],
            TILES,
        ) {
            Some((x, y))
        } else {
            searched(world, kind, samples.drop_first(), pass, (left - 1) as nat)
        }
    }
}

/// Whether a search that has drawn `drawn` and stands at the given point
/// goes on with further samples as the whole search does with all of them.
pub open spec fn resumes(
    world: WorldView,
    kind: KindView,
    drawn: Seq<u32>,
    pass: nat,
    left: nat,
    rest: Seq<u32>,
) -> bool {
    searched(world, kind, drawn + rest, 0, TILES as nat) == searched(world, kind, rest, pass, left)
}

/// The sort of entity that a spawn brings.
#[derive(Debug, Clone, Copy, PartialEq, Eq, Hash, Structural)]
pub enum Band {
    Food,
    Enemy,
    Neither,
}

/// The band that a sample falls into. With `f` the food multiplier and `e`
/// the enemy multiplier of `difficulty`, the sample stands for the number
/// `s = sample / UNIT * f * e`. It brings food if `s` is at most `0.6 * f`,
/// an enemy if it is above that but at most `0.6 * f + 0.4 * e`, and
/// nothing beyond. A multiplier of zero leaves its band without width, and
/// such a band brings nothing: where both are zero, nothing spawns. Both
/// comparisons are made exactly, with every denominator multiplied out.
pub open spec fn spec_spawn_band(difficulty: Difficulty, sample: u32) -> Band {
    let nf = difficulty.food_mul.num as int;
    let df = difficulty.food_mul.den as int;
    let ne = difficulty.enemy_mul.num as int;
    let de = difficulty.enemy_mul.den as int;
    let scaled = 10 * sample * nf * ne;
    let food = 6 * UNIT * nf * de;
    let enemy = 4 * UNIT * ne * df;
    if nf > 0 && scaled <= food {
        Band::Food
    } else if ne > 0 && scaled <= food + enemy {
        Band::Enemy
    } else {
        Band::Neither
    }
}

/// The band that a sample falls into.
pub fn spawn_band(difficulty: Difficulty, sample: u32) -> (r: Band)
    requires
        sample < UNIT,
    ensures
        r == spec_spawn_band(difficulty, sample),
{
    let nf = difficulty.food_mul.num as u128;
    let df = difficulty.food_mul.den as u128;
    let ne = difficulty.enemy_mul.num as u128;
    let de = difficulty.enemy_mul.den as u128;
    proof {
        let top: int = 0xffff_ffff;
        let unit: int = 0x100_0000;
        lemma_mul_upper_bound(10 * sample, 10 * unit, nf as int, top);
        lemma_mul_upper_bound(10 * sample * nf, 10 * unit * top, ne as int, top);
        lemma_mul_upper_bound(6 * UNIT, 6 * unit, nf as int, top);
        lemma_mul_upper_bound(6 * UNIT * nf, 6 * unit * top, de as int, top);
        lemma_mul_upper_bound(4 * UNIT, 4 * unit, ne as int, top);
        lemma_mul_upper_bound(4 * UNIT * ne, 4 * unit * top, df as int, top);
    }
    let scaled: u128 = 10 * (sample as u128) * nf * ne;
    let food: u128 = 6 * (UNIT as u128) * nf * de;
    let enemy: u128 = 4 * (UNIT as u128) * ne * df;
    if nf > 0 && scaled <= food {
        Band::Food
    } else if ne > 0 && scaled <= food + enemy {
        Band::Enemy
    } else {
        Band::Neither
    }
}

/// The least health that is rolled for an enemy is two; the roll stays
/// below a quarter of the player's damage, or below three if that is more.
pub open spec fn health_roll_limit(player: PlayerView) -> u32 {
    if player.damage.value() / 4 > 3 {
        player.damage.value() / 4
    } else {
        3
    }
}

/// The least damage that is rolled for an enemy is one; the roll stays
/// below a third of the player's health, or below two if that is more.
pub open spec fn damage_roll_limit(player: PlayerView) -> u32 {
    if player.health / 3 > 2 {
        player.health / 3
    } else {
        2
    }
}

/// Whether a kind is one that `spawn_random` can bring in `world` under the
/// combined difficulty: food worth a roll from two to seven, or an enemy
/// whose health and damage are rolls within the limits that the player's
/// stats set, each roll scaled by its multiplier.
pub open spec fn spawn_kind_of(kind: KindView, world: WorldView, difficulty: Difficulty) -> bool {
    match kind {
        KindView::Food { food } => exists|roll: u32|
            2 <= roll < 8 && food == #[trigger] roll.applied(difficulty.food_food_mul),
        KindView::Enemy { health, damage } => {
            &&& exists|roll: u32|
                2 <= roll < health_roll_limit(world.player) && health == #[trigger] roll.applied(
                    difficulty.enemy_health_mul,
                )
            &&& exists|roll: u32|
                1 <= roll < damage_roll_limit(world.player) && damage == #[trigger] roll.applied(
                    difficulty.enemy_damage_mul,
                )
        },
        _ => false,
    }
}

impl Entity {
    /// Resolves a meeting of the player with the entity: see
    /// `EntityView::meet`. A tile that the meeting opens is set in the
    /// active sector of `map`.
    pub fn interact(&mut self, player: &mut Player, map: &mut SectorMap) -> (r: TurnResult)
        requires
            old(self)@.wf(),
            old(map).current < old(map).sectors.len(),
        ensures
            final(self)@ == old(self)@.meet(old(player)@).entity,
            final(player)@ == old(self)@.meet(old(player)@).player,
            final(map)@ == old(map)@.after(old(self)@.meet(old(player)@)),
            turn_view(r) == old(self)@.meet(old(player)@).result,
            final(self)@.wf(),
            final(self)@.x == old(self)@.x && final(self)@.y == old(self)@.y,
            final(self)@.kind.id() == old(self)@.kind.id(),
            final(player)@.x == old(player)@.x && final(player)@.y == old(player)@.y,
            old(map)@.wf() ==> final(map)@.wf(),
    {
        let px = self.x;
        let py = self.y;
        match &mut self.kind {
            EntityKind::Food { food } => {
                let eaten = *food;
                player.hunger = player.hunger.saturating_sub(eaten);
                let healed = player.health.saturating_add(2);
                player.health = if healed < player.max_health.get() {
                    healed
                } else {
                    player.max_health.get()
                };
                self.alive = false;
                Ok(GoodResult::Ate(eaten))
            },
            EntityKind::Enemy { health, damage } => {
                if player.damage.get() >= *health {
                    self.alive = false;
                    Ok(GoodResult::WonFight(false))
                } else if *damage >= player.health {
                    player.health = 0;
                    Err(BadResult::ViolentDeath)
                } else {
                    *health = *health - player.damage.get();
                    player.health = player.health - *damage;
                    Ok(GoodResult::Fight(*damage, *health))
                }
            },
            EntityKind::Boss { health, damage, damage_gain, block, id } => {
                if player.damage.get() >= *health {
                    let gain = *damage_gain;
                    let guarded = *block;
                    let boss = *id;
                    self.alive = false;
                    player.damage = player.damage.shift(gain, false);
                    let (x, y) = guarded.0.wrapping_step(px, py);
                    map.set(x, y, guarded.1);
                    Ok(GoodResult::DefeatedBoss(boss))
                } else if *damage >= player.health {
                    player.health = 0;
                    Err(BadResult::ViolentDeath)
                } else {
                    *health = *health - player.damage.get();
                    player.health = player.health - *damage;
                    Ok(GoodResult::Fight(*damage, *health))
                }
            },
            EntityKind::Item(item) => {
                let picked = item.clone();
                let name = item.name.clone();
                self.alive = false;
                picked.apply(player);
                let ghost changed = player@;
                proof {
                    picked@.lemma_applied_keeps(old(player)@);
                }
                player.inventory.push(picked);
                proof {
                    assert(player.inventory.deep_view() =~= changed.inventory.push(picked@));
                }
                Ok(GoodResult::PickedUpItem(name))
            },
            EntityKind::Npc { dialogue, dialogue_idx, items, id } => {
                if let Some(idx) = *dialogue_idx {
                    let ghost before = items.deep_view();
                    assert(idx < dialogue.deep_view().len());
                    assert(dialogue.deep_view().len() == dialogue.len());
                    if items.len() > 0 {
                        if items[0].1 == idx && !holds_item(&player.inventory, &items[0].0.name) {
                            let (item, _) = items.remove(0);
                            proof {
                                assert(items.deep_view() =~= before.drop_first());
                                assert(item@ == before[0].0);
                            }
                            item.apply(player);
                            let ghost changed = player@;
                            proof {
                                item@.lemma_applied_keeps(old(player)@);
                            }
                            player.inventory.push(item);
                            proof {
                                assert(player.inventory.deep_view() =~= changed.inventory.push(item@));
                            }
                        }
                    }
                    let next = idx + 1;
                    if next < dialogue.len() {
                        *dialogue_idx = Some(next);
                    } else {
                        *dialogue_idx = None;
                    }
                }
                Ok(GoodResult::Menued)
            },
        }
    }
}

/// If the player's damage reaches an enemy's health, the enemy dies and the
/// player wins, also when the enemy's damage reaches the player's health in
/// the same exchange: the player's health is left as it was.
pub proof fn lemma_enemy_death_first(entity: EntityView, player: PlayerView)
    requires
        entity.kind is Enemy || entity.kind is Boss,
        entity.kind matches KindView::Enemy { health, damage } ==> player.damage.value() >= health && damage
            >= player.health,
        entity.kind matches KindView::Boss { health, damage, .. } ==> player.damage.value() >= health && damage
            >= player.health,
    ensures
        !entity.meet(player).entity.alive,
        entity.meet(player).player.health == player.health,
        entity.meet(player).result is Ok,
        entity.kind is Enemy ==> entity.meet(player).result == Ok::<GoodView, BadResult>(GoodView::WonFight(false)),
        entity.kind matches KindView::Boss { id, .. } ==> entity.meet(player).result == Ok::<
            GoodView,
            BadResult,
        >(GoodView::DefeatedBoss(id)),
{
}

impl WorldView {
    /// The player's difficulty composed with that of the active sector.
    pub open spec fn combined_difficulty(self) -> Difficulty {
        self.difficulty.mul_spec(self.map.sector().difficulty)
    }

    /// What a try to spawn brings, given the two samples drawn for it:
    /// nothing if the sector is full or the first sample does not trigger a
    /// spawn, else the band of the second sample.
    pub open spec fn spawn_decision(self, trigger: u32, band: u32) -> Band {
        if self.entities.len() >= max_entities_at(self.turn) {
            Band::Neither
        } else if !spec_spawn_triggered(spawn_chance_at(self.turn), trigger) {
            Band::Neither
        } else {
            spec_spawn_band(self.combined_difficulty(), band)
        }
    }
}

impl Entity {
    /// Whether an entity stands at `(x, y)`.
    fn occupied(world: &World, x: u32, y: u32) -> (r: bool)
        ensures
            r == world@.occupied(x, y),
    {
        let mut i: usize = 0;
        while i < world.entities.len()
            invariant
                i <= world.entities.len(),
                forall|j: int| 0 <= j < i ==> !((#[trigger] world@.entities[j]).x == x && world@.entities[j].y == y),
            decreases world.entities.len() - i,
        {
            if world.entities[i].x == x && world.entities[i].y == y {
                assert(world@.entities[i as int].x == x && world@.entities[i as int].y == y);
                return true;
            }
            assert(!(world@.entities[i as int].x == x && world@.entities[i as int].y == y));
            i = i + 1;
        }
        false
    }

    /// Whether a wandering entity may step onto `(x, y)`.
    pub fn admitted(world: &World, x: u32, y: u32, into_player: bool) -> (r: bool)
        requires
            world.map.current < world.map.sectors.len(),
        ensures
            r == world@.admits(x, y, into_player),
    {
        if !into_player && world.player.x == x && world.player.y == y {
            return false;
        }
        if Entity::occupied(world, x, y) {
            return false;
        }
        match world.map.get(x, y) {
            Some(tile) => tile.kind.walkable(),
            None => false,
        }
    }

    /// Takes one step in `direction` if the tile there admits the entity,
    /// and says whether it did.
    pub fn try_step(&mut self, direction: Direction, into_player: bool, world: &World) -> (r: bool)
        requires
            world.map.current < world.map.sectors.len(),
        ensures
            r == world@.admits(
                direction.spec_step(old(self).x, old(self).y).0,
                direction.spec_step(old(self).x, old(self).y).1,
                into_player,
            ),
            r ==> final(self)@ == old(self)@.at(
                direction.spec_step(old(self).x, old(self).y).0,
                direction.spec_step(old(self).x, old(self).y).1,
            ),
            !r ==> final(self)@ == old(self)@,
    {
        let (x, y) = direction.step(self.x, self.y);
        if Entity::admitted(world, x, y, into_player) {
            self.x = x;
            self.y = y;
            true
        } else {
            false
        }
    }

    /// Takes the first step that is admitted among the steps in
    /// `directions`, tried in order; if none is, the entity stays where it
    /// is. Returns the entity's place after the try.
    pub fn move_by(&mut self, directions: &Vec<Direction>, into_player: bool, world: &World) -> (r: (u32, u32))
        requires
            world.map.current < world.map.sectors.len(),
        ensures
            r == first_admitted(world@, old(self).x, old(self).y, directions@, into_player),
            final(self)@ == old(self)@.at(r.0, r.1),
    {
        let mut i: usize = 0;
        proof {
            assert(directions@.subrange(0, directions@.len() as int) =~= directions@);
        }
        while i < directions.len()
            invariant
                i <= directions.len(),
                world.map.current < world.map.sectors.len(),
                self@ == old(self)@,
                first_admitted(
                    world@,
                    self.x,
                    self.y,
                    directions@.subrange(i as int, directions@.len() as int),
                    into_player,
                ) == first_admitted(world@, old(self).x, old(self).y, directions@, into_player),
            decreases directions.len() - i,
        {
            let ghost rest = directions@.subrange(i as int, directions@.len() as int);
            proof {
                assert(rest[0] == directions@[i as int]);
                assert(rest.drop_first() =~= directions@.subrange(i + 1, directions@.len() as int));
            }
            if self.try_step(directions[i], into_player, world) {
                return (self.x, self.y);
            }
            i = i + 1;
        }
        (self.x, self.y)
    }

    /// Draws eight random directions and takes the first step among them
    /// that is admitted; if none is, the entity stays where it is. Returns
    /// the entity's place after the try.
    pub fn random_move(&mut self, into_player: bool, world: &World) -> (r: (u32, u32))
        requires
            world.map.current < world.map.sectors.len(),
        ensures
            final(self)@ == old(self)@.at(r.0, r.1),
            exists|directions: Seq<Direction>|
                directions.len() == MOVE_ATTEMPTS && r == #[trigger] first_admitted(
                    world@,
                    old(self).x,
                    old(self).y,
                    directions,
                    into_player,
                ),
            moved_to(world@, old(self).x, old(self).y, r.0, r.1, into_player),
    {
        let drawn = Draw::random();
        let r = self.move_by(&drawn.directions, into_player, world);
        proof {
            lemma_first_admitted(world@, old(self).x, old(self).y, drawn.directions@, into_player);
        }
        r
    }

    /// What an entity that has moved does where it stands: on the player's
    /// tile it meets the player, elsewhere nothing happens.
    pub fn arrive(&mut self, world: &mut World) -> (r: TurnResult)
        requires
            old(self)@.wf(),
            old(world)@.wf(),
        ensures
            (final(self)@, final(world)@, turn_view(r)) == arrival(old(self)@, old(world)@),
            final(self)@.wf(),
            final(self)@.kind.id() == old(self)@.kind.id(),
            final(world)@.wf(),
    {
        if world.player.x == self.x && world.player.y == self.y {
            self.interact(&mut world.player, &mut world.map)
        } else {
            Ok(GoodResult::Proceed)
        }
    }

    /// One turn of the entity, given the sample and the directions drawn
    /// for it: see `acted`.
    pub fn act(&mut self, world: &mut World, impulse: u32, directions: &Vec<Direction>) -> (r: TurnResult)
        requires
            old(self)@.wf(),
            old(world)@.wf(),
        ensures
            (final(self)@, final(world)@, turn_view(r)) == acted(old(self)@, old(world)@, impulse, directions@),
            final(self)@.wf(),
            final(self)@.kind.id() == old(self)@.kind.id(),
            final(world)@.wf(),
    {
        let food = match &self.kind {
            EntityKind::Food { .. } => true,
            _ => false,
        };
        let enemy = match &self.kind {
            EntityKind::Enemy { health, damage } => enemy_moves(*health, *damage, impulse),
            _ => false,
        };
        proof {
            lemma_first_admitted(world@, self.x, self.y, directions@, false);
            lemma_first_admitted(world@, self.x, self.y, directions@, true);
        }
        if food {
            if within_percent(impulse, FOOD_MOVE_PERCENT) {
                self.move_by(directions, false, world);
            }
            Ok(GoodResult::Proceed)
        } else if enemy {
            self.move_by(directions, true, world);
            self.arrive(world)
        } else {
            Ok(GoodResult::Proceed)
        }
    }

    /// One turn of the entity. Food moves with a chance of 55 in a hundred.
    /// An enemy moves with a chance of 60 in a hundred, damped by its
    /// health and its damage; it walks into the player on purpose, and meets
    /// the player if it ends the move on the player's tile. Bosses, items
    /// and characters stay where they are.
    pub fn ai(&mut self, world: &mut World) -> (r: TurnResult)
        requires
            old(self)@.wf(),
            old(world)@.wf(),
        ensures
            exists|impulse: u32, directions: Seq<Direction>|
                impulse < UNIT && directions.len() == MOVE_ATTEMPTS && (final(self)@, final(world)@, turn_view(r))
                    == #[trigger] acted(old(self)@, old(world)@, impulse, directions),
            final(self)@.wf(),
            final(self)@.kind.id() == old(self)@.kind.id(),
            final(world)@.wf(),
            !(old(self)@.kind is Food || old(self)@.kind is Enemy) ==> {
                &&& final(self)@ == old(self)@
                &&& final(world)@ == old(world)@
                &&& turn_view(r) == Ok::<GoodView, BadResult>(GoodView::Proceed)
            },
    {
        let drawn = Draw::random();
        let r = self.act(world, drawn.impulse, &drawn.directions);
        proof {
            assert((self@, world@, turn_view(r)) == acted(old(self)@, old(world)@, drawn.impulse, drawn.directions@));
        }
        r
    }

    /// Whether the active sector has a tile on which the kind may spawn.
    pub fn has_spawn_tile(kind: &EntityKind, world: &World) -> (r: bool)
        requires
            world@.wf(),
        ensures
            r == world@.has_spawn_tile(kind@),
    {
        let mut y: u32 = 0;
        while y < HEIGHT as u32
            invariant
                world@.wf(),
                y <= HEIGHT,
                forall|x2: u32, y2: u32| y2 < y ==> !#[trigger] world@.spawnable(kind@, x2, y2),
            decreases HEIGHT - y,
        {
            let mut x: u32 = 0;
            while x < WIDTH as u32
                invariant
                    world@.wf(),
                    y < HEIGHT,
                    x <= WIDTH,
                    forall|x2: u32, y2: u32| y2 < y ==> !#[trigger] world@.spawnable(kind@, x2, y2),
                    forall|x2: u32| x2 < x ==> !#[trigger] world@.spawnable(kind@, x2, y),
                decreases WIDTH - x,
            {
                if !(world.player.x == x && world.player.y == y) {
                    let tile = world.map.get(x, y).unwrap();
                    if kind.spawn_percentage(&tile) > 0 {
                        assert(world@.spawnable(kind@, x, y));
                        return true;
                    }
                }
                x = x + 1;
            }
            y = y + 1;
        }
        false
    }

    /// Picks the tile for a new entity of the given kind: the tile that
    /// `searched` finds with the samples that are drawn on the way. After
    /// 192 passes every tile on which the kind may spawn is taken, so the
    /// search ends.
    pub fn pick_spawn_tile(kind: &EntityKind, world: &World) -> (r: (u32, u32))
        requires
            world@.wf(),
            world@.has_spawn_tile(kind@),
        ensures
            world@.spawnable(kind@, r.0, r.1),
            exists|samples: Seq<u32>| #[trigger] searched(world@, kind@, samples, 0, TILES as nat) == Some(r),
    {
        let tiles: u32 = (WIDTH * HEIGHT) as u32;
        let mut iterations: u32 = 0;
        let ghost mut drawn: Seq<u32> = Seq::empty();
        let ghost mut pass: nat = 0;
        let ghost mut left: nat = TILES as nat;
        proof {
            assert forall|rest: Seq<u32>| #[trigger] resumes(world@, kind@, drawn, pass, left, rest) by {
                assert(drawn + rest =~= rest);
            }
        }
        loop
            invariant
                world@.wf(),
                world@.has_spawn_tile(kind@),
                iterations <= BIAS_PASSES,
                tiles == WIDTH * HEIGHT,
                pass == iterations,
                left == TILES,
                forall|rest: Seq<u32>| #[trigger] resumes(world@, kind@, drawn, pass, left, rest),
            decreases BIAS_PASSES - iterations,
        {
            let mut y: u32 = HEIGHT as u32;
            while y > 0
                invariant
                    world@.wf(),
                    y <= HEIGHT,
                    iterations <= BIAS_PASSES,
                    tiles == WIDTH * HEIGHT,
                    iterations == BIAS_PASSES ==> forall|x2: u32, y2: u32|
                        y <= y2 ==> !#[trigger] world@.spawnable(kind@, x2, y2),
                    pass == iterations,
                    left == y * WIDTH,
                    forall|rest: Seq<u32>| #[trigger] resumes(world@, kind@, drawn, pass, left, rest),
                decreases y,
            {
                y = y - 1;
                let mut x: u32 = WIDTH as u32;
                while x > 0
                    invariant
                        world@.wf(),
                        y < HEIGHT,
                        x <= WIDTH,
                        iterations <= BIAS_PASSES,
                        tiles == WIDTH * HEIGHT,
                        iterations == BIAS_PASSES ==> forall|x2: u32, y2: u32|
                            y < y2 ==> !#[trigger] world@.spawnable(kind@, x2, y2),
                        iterations == BIAS_PASSES ==> forall|x2: u32|
                            x <= x2 ==> !#[trigger] world@.spawnable(kind@, x2, y),
                        pass == iterations,
                        left == y * WIDTH + x,
                        forall|rest: Seq<u32>| #[trigger] resumes(world@, kind@, drawn, pass, left, rest),
                    decreases x,
                {
                    x = x - 1;
                    let ghost before = drawn;
                    let ghost here = left;
                    proof {
                        assert(((here - 1) % (WIDTH as int)) == x && ((here - 1) / (WIDTH as int)) == y);
                        left = (here - 1) as nat;
                    }
                    if !(world.player.x == x && world.player.y == y) {
                        let tile = world.map.get(x, y).unwrap();
                        let percentage = kind.spawn_percentage(&tile);
                        if percentage > 0 {
                            let taken = sample();
                            proof {
                                if iterations == BIAS_PASSES {
                                    lemma_bias_accepts(percentage, iterations, taken, tiles);
                                }
                                assert(world@.spawnable(kind@, x, y));
                            }
                            if tile_accepted(percentage, iterations, taken, tiles) {
                                proof {
                                    let last = seq![taken];
                                    assert(resumes(world@, kind@, before, pass, here, last));
                                    assert(searched(world@, kind@, last, pass, here) == Some((x, y)));
                                }
                                return (x, y);
                            }
                            proof {
                                drawn = before.push(taken);
                                assert forall|rest: Seq<u32>| #[trigger]
                                    resumes(world@, kind@, drawn, pass, left, rest) by {
                                    let longer = seq![taken] + rest;
                                    assert(resumes(world@, kind@, before, pass, here, longer));
                                    assert(before + longer =~= drawn + rest);
                                    assert(longer.drop_first() =~= rest);
                                    assert(longer[0] == taken);
                                }
                            }
                        } else {
                            proof {
                                assert(!world@.spawnable(kind@, x, y));
                                assert forall|rest: Seq<u32>| #[trigger]
                                    resumes(world@, kind@, drawn, pass, left, rest) by {
                                    assert(resumes(world@, kind@, drawn, pass, here, rest));
                                }
                            }
                        }
                    } else {
                        proof {
                            assert(!world@.spawnable(kind@, x, y));
                            assert forall|rest: Seq<u32>| #[trigger] resumes(world@, kind@, drawn, pass, left, rest) by {
                                assert(resumes(world@, kind@, drawn, pass, here, rest));
                            }
                        }
                    }
                }
            }
            proof {
                if iterations == BIAS_PASSES {
                    let (x2, y2) = choose|x2: u32, y2: u32| world@.spawnable(kind@, x2, y2);
                    assert(!world@.spawnable(kind@, x2, y2));
                }
                let ended = pass;
                pass = pass + 1;
                left = TILES as nat;
                assert forall|rest: Seq<u32>| #[trigger] resumes(world@, kind@, drawn, pass, left, rest) by {
                    assert(resumes(world@, kind@, drawn, ended, 0, rest));
                }
            }
            iterations = iterations + 1;
        }
    }

    /// The tile that the search for a spawn tile finds with the given
    /// samples, used up one after the other: see `searched`.
    pub fn pick_with(kind: &EntityKind, world: &World, samples: &Vec<u32>) -> (r: Option<(u32, u32)>)
        requires
            world@.wf(),
        ensures
            r == searched(world@, kind@, samples@, 0, TILES as nat),
            r matches Some(tile) ==> world@.spawnable(kind@, tile.0, tile.1),
    {
        let tiles: u32 = (WIDTH * HEIGHT) as u32;
        let ghost goal = searched(world@, kind@, samples@, 0, TILES as nat);
        let ghost mut rest: Seq<u32> = samples@;
        let ghost mut left: nat = TILES as nat;
        let mut used: usize = 0;
        let mut iterations: u32 = 0;
        proof {
            assert(samples@.subrange(0, samples@.len() as int) =~= samples@);
        }
        while iterations <= BIAS_PASSES
            invariant
                world@.wf(),
                iterations <= BIAS_PASSES + 1,
                tiles == WIDTH * HEIGHT,
                used <= samples.len(),
                rest == samples@.subrange(used as int, samples@.len() as int),
                left == TILES,
                goal == searched(world@, kind@, rest, iterations as nat, left),
                goal == searched(world@, kind@, samples@, 0, TILES as nat),
            decreases BIAS_PASSES + 1 - iterations,
        {
            let mut y: u32 = HEIGHT as u32;
            while y > 0
                invariant
                    world@.wf(),
                    y <= HEIGHT,
                    iterations <= BIAS_PASSES,
                    tiles == WIDTH * HEIGHT,
                    used <= samples.len(),
                    rest == samples@.subrange(used as int, samples@.len() as int),
                    left == y * WIDTH,
                    goal == searched(world@, kind@, rest, iterations as nat, left),
                    goal == searched(world@, kind@, samples@, 0, TILES as nat),
                decreases y,
            {
                y = y - 1;
                let mut x: u32 = WIDTH as u32;
                while x > 0
                    invariant
                        world@.wf(),
                        y < HEIGHT,
                        x <= WIDTH,
                        iterations <= BIAS_PASSES,
                        tiles == WIDTH * HEIGHT,
                        used <= samples.len(),
                        rest == samples@.subrange(used as int, samples@.len() as int),
                        left == y * WIDTH + x,
                        goal == searched(world@, kind@, rest, iterations as nat, left),
                        goal == searched(world@, kind@, samples@, 0, TILES as nat),
                    decreases x,
                {
                    x = x - 1;
                    let ghost here = left;
                    proof {
                        assert(((here - 1) % (WIDTH as int)) == x && ((here - 1) / (WIDTH as int)) == y);
                        left = (here - 1) as nat;
                    }
                    let considered = if world.player.x == x && world.player.y == y {
                        0
                    } else {
                        kind.spawn_percentage(&world.map.get(x, y).unwrap())
                    };
                    if considered > 0 {
                        assert(world@.spawnable(kind@, x, y));
                        if used >= samples.len() {
                            return None;
                        }
                        let taken = samples[used];
                        assert(rest[0] == taken);
                        if tile_accepted(considered, iterations, taken, tiles) {
                            return Some((x, y));
                        }
                        used = used + 1;
                        proof {
                            assert(rest.drop_first() =~= samples@.subrange(used as int, samples@.len() as int));
                            rest = rest.drop_first();
                        }
                    } else {
                        assert(!world@.spawnable(kind@, x, y));
                    }
                }
            }
            proof {
                left = TILES as nat;
            }
            iterations = iterations + 1;
        }
        None
    }

    /// What a try to spawn brings, given the two samples drawn for it.
    pub fn spawn_decision(world: &World, trigger: u32, band: u32) -> (r: Band)
        requires
            world@.wf(),
            band < UNIT,
        ensures
            r == world@.spawn_decision(trigger, band),
    {
        if world.entities.len() >= world.max_entities() as usize {
            return Band::Neither;
        }
        if !spawn_triggered(world.spawn_chance_coeff(), trigger) {
            return Band::Neither;
        }
        proof {
            lemma_plain_composes(world.difficulty, world@.map.sector().difficulty);
        }
        let difficulty = world.difficulty * world.map.sector().difficulty;
        spawn_band(difficulty, band)
    }

    /// Spawns what the two samples decide on. Nothing spawns if the
    /// decision is for neither band, or if the sector has no tile for the
    /// kind. Otherwise the stats are rolled and scaled by the combined
    /// difficulty, and a tile is picked.
    pub fn spawn_from(world: &World, trigger: u32, band: u32) -> (r: Option<Entity>)
        requires
            world@.wf(),
            band < UNIT,
        ensures
            r is Some <==> world@.has_tile_for(world@.spawn_decision(trigger, band)),
            r matches Some(e) ==> {
                &&& e@.alive
                &&& !e@.persist
                &&& e@.kind is Food <==> world@.spawn_decision(trigger, band) == Band::Food
                &&& spawn_kind_of(e@.kind, world@, world@.combined_difficulty())
                &&& world@.spawnable(e@.kind, e@.x, e@.y)
                &&& e@.wf()
            },
    {
        proof {
            lemma_plain_composes(world.difficulty, world@.map.sector().difficulty);
        }
        let difficulty = world.difficulty * world.map.sector().difficulty;
        let kind = match Entity::spawn_decision(world, trigger, band) {
            Band::Food => {
                let roll = random_range(2, 8);
                EntityKind::Food { food: roll.apply(difficulty.food_food_mul) }
            },
            Band::Enemy => {
                let health_limit = if world.player.damage.get() / 4 > 3 {
                    world.player.damage.get() / 4
                } else {
                    3
                };
                let damage_limit = if world.player.health / 3 > 2 {
                    world.player.health / 3
                } else {
                    2
                };
                let health_roll = random_range(2, health_limit);
                let damage_roll = random_range(1, damage_limit);
                EntityKind::Enemy {
                    health: health_roll.apply(difficulty.enemy_health_mul),
                    damage: damage_roll.apply(difficulty.enemy_damage_mul),
                }
            },
            Band::Neither => {
                return None;
            },
        };
        proof {
            if kind@ is Food {
                lemma_tile_for_variant(world@, kind@, food_of_any_worth());
            } else {
                lemma_tile_for_variant(world@, kind@, enemy_of_any_strength());
            }
        }
        if !Entity::has_spawn_tile(&kind, world) {
            return None;
        }
        let (x, y) = Entity::pick_spawn_tile(&kind, world);
        Some(Entity { x, y, kind, alive: true, persist: false })
    }

    /// Tries to spawn one entity in the active sector. Nothing spawns if
    /// the sector already holds as many entities as the turn allows.
    /// Otherwise two samples are drawn, and what they decide on is spawned.
    pub fn spawn_random(world: &World) -> (r: Option<Entity>)
        requires
            world@.wf(),
        ensures
            world@.entities.len() >= max_entities_at(world@.turn) ==> r is None,
            exists|trigger: u32, band: u32|
                trigger < UNIT && band < UNIT && (r is Some <==> world@.has_tile_for(
                    #[trigger] world@.spawn_decision(trigger, band),
                )),
            r matches Some(e) ==> {
                &&& e@.alive
                &&& !e@.persist
                &&& spawn_kind_of(e@.kind, world@, world@.combined_difficulty())
                &&& world@.spawnable(e@.kind, e@.x, e@.y)
                &&& e@.wf()
            },
    {
        if world.entities.len() >= world.max_entities() as usize {
            assert(world@.spawn_decision(0, 0) == Band::Neither);
            return None;
        }
        let trigger = sample();
        let band = sample();
        let r = Entity::spawn_from(world, trigger, band);
        proof {
            assert(r is Some <==> world@.has_tile_for(world@.spawn_decision(trigger, band)));
        }
        r
    }
}

/// Food, whatever it is worth.
pub open spec fn food_of_any_worth() -> KindView {
    KindView::Food { food: 0 }
}

/// An enemy, whatever its strength.
pub open spec fn enemy_of_any_strength() -> KindView {
    KindView::Enemy { health: 0, damage: 0 }
}

/// Where a kind may spawn depends on whether it is food or an enemy, not on
/// its stats.
pub proof fn lemma_tile_for_variant(world: WorldView, kind: KindView, other: KindView)
    requires
        (kind is Food && other is Food) || (kind is Enemy && other is Enemy),
    ensures
        world.has_spawn_tile(kind) == world.has_spawn_tile(other),
{
    if world.has_spawn_tile(kind) {
        let (x, y) = choose|x: u32, y: u32| world.spawnable(kind, x, y);
        assert(world.spawnable(other, x, y));
    }
    if world.has_spawn_tile(other) {
        let (x, y) = choose|x: u32, y: u32| world.spawnable(other, x, y);
        assert(world.spawnable(kind, x, y));
    }
}

} // verus!
