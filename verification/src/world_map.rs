//! The world of the adventure: eight sectors, their links, their guardians,
//! their treasures and their people.

use vstd::prelude::*;
use crate::difficulty::{Difficulty, Factor};
use crate::entity::{Entity, EntityKind, EntityView, KindView};
use crate::item::{Buff, Item, ItemView};
use crate::map::{Direction, Tile, TileKind, registered, registry_wf, links_closed,
    lemma_member_registered};
use crate::sector::{is_valid_map, Sector, SectorView, valid_map, scan, trimmed};

verus! {

/// The map texts of the eight sectors.
pub struct MapTexts {
    pub start: String,
    pub plains1: String,
    pub plains2: String,
    pub plains3: String,
    pub plains4: String,
    pub mountains1: String,
    pub peninsula1: String,
    pub village1: String,
}

impl MapTexts {
    /// Whether every text, without the whitespace around it, is a valid
    /// map.
    pub open spec fn valid(self) -> bool {
        &&& valid_map(trimmed(self.start@))
        &&& valid_map(trimmed(self.plains1@))
        &&& valid_map(trimmed(self.plains2@))
        &&& valid_map(trimmed(self.plains3@))
        &&& valid_map(trimmed(self.plains4@))
        &&& valid_map(trimmed(self.mountains1@))
        &&& valid_map(trimmed(self.peninsula1@))
        &&& valid_map(trimmed(self.village1@))
    }

    /// Whether every text, without the whitespace around it, is a valid
    /// map.
    pub fn check(&self) -> (r: bool)
        ensures
            r == self.valid(),
    {
        is_valid_map(self.start.as_str()) && is_valid_map(self.plains1.as_str()) && is_valid_map(
            self.plains2.as_str(),
        ) && is_valid_map(self.plains3.as_str()) && is_valid_map(self.plains4.as_str()) && is_valid_map(
            self.mountains1.as_str(),
        ) && is_valid_map(self.peninsula1.as_str()) && is_valid_map(self.village1.as_str())
    }
}

/// The names of the sectors, in the order of the registry.
pub open spec fn sector_names() -> Seq<Seq<char>> {
    seq![
        "start"@,
        "plains1"@,
        "plains2"@,
        "plains3"@,
        "plains4"@,
        "mountains1"@,
        "peninsula1"@,
        "village1"@,
    ]
}

/// The map text of each sector without the whitespace around it, in the
/// order of the registry.
pub open spec fn sector_texts(maps: MapTexts) -> Seq<Seq<char>> {
    seq![
        trimmed(maps.start@),
        trimmed(maps.plains1@),
        trimmed(maps.plains2@),
        trimmed(maps.plains3@),
        trimmed(maps.plains4@),
        trimmed(maps.mountains1@),
        trimmed(maps.peninsula1@),
        trimmed(maps.village1@),
    ]
}

/// The neighbors of each sector: up, down, left, right.
pub open spec fn sector_links() -> Seq<Seq<Option<Seq<char>>>> {
    seq![
        seq![None, None, Some("plains1"@), None],
        seq![Some("plains4"@), Some("plains3"@), Some("plains2"@), Some("start"@)],
        seq![None, None, Some("mountains1"@), Some("plains1"@)],
        seq![Some("plains1"@), Some("peninsula1"@), None, None],
        seq![None, Some("plains1"@), None, None],
        seq![None, None, None, Some("plains2"@)],
        seq![Some("plains3"@), None, None, None],
        seq![Some("plains4"@), Some("plains4"@), Some("plains4"@), Some("plains4"@)],
    ]
}

/// The difficulty of each sector.
pub open spec fn sector_difficulties() -> Seq<Difficulty> {
    seq![
        Difficulty::of_percents(150, 120, 75, 80, 75),
        Difficulty::of_percents(100, 100, 100, 100, 100),
        Difficulty::of_percents(100, 100, 100, 100, 100),
        Difficulty::of_percents(100, 100, 100, 100, 100),
        Difficulty::of_percents(100, 100, 100, 100, 100),
        Difficulty::of_percents(50, 150, 200, 200, 200),
        Difficulty::of_percents(75, 80, 150, 150, 200),
        Difficulty::of_percents(0, 0, 0, 0, 0),
    ]
}

/// A guardian.
pub open spec fn boss_at(x: u32, y: u32, health: u32, damage: u32, id: u32, block: (Direction, Tile)) -> EntityView {
    EntityView {
        x,
        y,
        kind: KindView::Boss { health, damage, id, damage_gain: 2, block },
        alive: true,
        persist: true,
    }
}

/// An item on the ground.
pub open spec fn item_at(x: u32, y: u32, name: Seq<char>, id: u32, buffs: Seq<Buff>, debuffs: Seq<Buff>) -> EntityView {
    EntityView { x, y, kind: KindView::Item(ItemView { name, buffs, debuffs, id }), alive: true, persist: true }
}

/// A character at the first of three lines.
pub open spec fn character_at(
    x: u32,
    y: u32,
    lines: Seq<Seq<char>>,
    items: Seq<(ItemView, usize)>,
    id: u32,
) -> EntityView {
    EntityView {
        x,
        y,
        kind: KindView::Npc { dialogue: lines, dialogue_idx: Some(0usize), items, id },
        alive: true,
        persist: true,
    }
}

/// What the wanderer in the mountains says.
pub open spec fn wanderer_lines() -> Seq<Seq<char>> {
    seq![
        "You'd better be careful,\nthese wilds are dangerous."@,
        "They say there's valuable\ntreasure past the river."@,
        "Well, good luck, traveler!"@,
    ]
}

/// What the host in the village says.
pub open spec fn host_lines() -> Seq<Seq<char>> {
    seq![
        "Welcome, traveler!\nStay as long as you like."@,
        "We're a quiet town, so don't\nexpect many attractions."@,
        "I've got to get back to work."@,
    ]
}

/// The entities of each sector.
pub open spec fn sector_residents() -> Seq<Seq<EntityView>> {
    seq![
        seq![
            boss_at(7, 7, 15, 3, 1, (Direction::Up, Tile { kind: TileKind::Grass })),
            boss_at(16, 12, 30, 5, 2, (Direction::Right, Tile { kind: TileKind::Forest })),
        ],
        seq![],
        seq![],
        seq![item_at(4, 11, "Sword"@, 3, seq![Buff::Damage(2)], seq![])],
        seq![item_at(20, 11, "Chestplate"@, 4, seq![Buff::MaxHealth(3)], seq![])],
        seq![
            item_at(
                3,
                6,
                "Vial of Fortitude"@,
                5,
                seq![Buff::MaxHealth(3), Buff::HungerCap(2), Buff::ThirstCap(2)],
                seq![],
            ),
            character_at(20, 7, wanderer_lines(), seq![], 6),
        ],
        seq![
            item_at(
                17,
                14,
                "Battleaxe"@,
                7,
                seq![Buff::Damage(3), Buff::MaxHealth(2)],
                seq![Buff::HungerCap(2), Buff::ThirstCap(2)],
            ),
        ],
        seq![
            character_at(
                3,
                2,
                host_lines(),
                seq![
                    (
                        ItemView { name: "Pouch"@, buffs: seq![Buff::HungerCap(2)], debuffs: seq![], id: 8 },
                        2usize,
                    ),
                ],
                9,
            ),
        ],
    ]
}

/// The sector that the world has at index `i`: its name, its grid read
/// from its map text, its links, its difficulty and its residents. Only the
/// village, the last sector, is a town with a return tile, and only the
/// fourth plain has an entrance, which leads to the village.
pub open spec fn planned(maps: MapTexts, i: int) -> SectorView {
    SectorView {
        id: sector_names()[i],
        tiles: scan(sector_texts(maps)[i]).tiles,
        entities: sector_residents()[i],
        neighbors: sector_links()[i],
        changed: Seq::empty(),
        difficulty: sector_difficulties()[i],
        do_survival: i != 7,
        entrances: if i == 4 {
            seq![(17u32, 11u32, "village1"@)]
        } else {
            Seq::empty()
        },
        return_tile: if i == 7 {
            Some((17u32, 11u32))
        } else {
            None
        },
    }
}

/// No two sectors have the same name.
proof fn lemma_names_differ()
    ensures
        forall|i: int, j: int| 0 <= i < 8 && 0 <= j < 8 && i != j ==> sector_names()[i] != sector_names()[j],
{
    reveal_strlit("start");
    reveal_strlit("plains1");
    reveal_strlit("plains2");
    reveal_strlit("plains3");
    reveal_strlit("plains4");
    reveal_strlit("mountains1");
    reveal_strlit("peninsula1");
    reveal_strlit("village1");
    let names = sector_names();
    assert(names[0].len() == 5);
    assert(names[1].len() == 7 && names[1][6] == '1');
    assert(names[2].len() == 7 && names[2][6] == '2');
    assert(names[3].len() == 7 && names[3][6] == '3');
    assert(names[4].len() == 7 && names[4][6] == '4');
    assert(names[5].len() == 10 && names[5][0] == 'm');
    assert(names[6].len() == 10 && names[6][0] == 'p');
    assert(names[7].len() == 8);
}

fn next_id(counter: &mut u32) -> (id: u32)
    requires
        *old(counter) < 1000,
    ensures
        id == *old(counter) + 1,
        *final(counter) == id,
{
    *counter = *counter + 1;
    *counter
}

fn lines(first: &str, second: &str, third: &str) -> (r: Vec<String>)
    ensures
        r.deep_view() == seq![first@, second@, third@],
{
    let mut r: Vec<String> = Vec::new();
    r.push(first.to_owned());
    r.push(second.to_owned());
    r.push(third.to_owned());
    proof {
        assert(r.deep_view() =~= seq![first@, second@, third@]);
    }
    r
}

/// The sectors of the adventure, read from their map texts.
///
/// The start is an easy sector with two guardians that each block a
/// passage. Four plains lie around it; two of them hold a weapon or armour,
/// and one has the door to the village. The mountains are scarce in food and
/// full of enemies; the peninsula is hard. The village is a town: nothing
/// spawns there, and hunger and thirst rest.
pub fn sectors(maps: &MapTexts) -> (r: Vec<Sector>)
    requires
        maps.valid(),
    ensures
        registry_wf(r.deep_view()),
        r.len() == 8,
        forall|i: int| 0 <= i < 8 ==> #[trigger] r.deep_view()[i] == planned(*maps, i),
        registered(r.deep_view(), "start"@),
{
    let mut counter: u32 = 0;
    let grass = Tile { kind: TileKind::Grass };
    let forest = Tile { kind: TileKind::Forest };

    let mut start_entities: Vec<Entity> = Vec::new();
    start_entities.push(
        Entity::new(
            7,
            7,
            EntityKind::Boss {
                health: 15,
                damage: 3,
                damage_gain: 2,
                id: next_id(&mut counter),
                block: (Direction::Up, grass),
            },
            true,
        ),
    );
    start_entities.push(
        Entity::new(
            16,
            12,
            EntityKind::Boss {
                health: 30,
                damage: 5,
                damage_gain: 2,
                id: next_id(&mut counter),
                block: (Direction::Right, forest),
            },
            true,
        ),
    );
    let start = Sector::new(
        maps.start.as_str(),
        "start",
        start_entities,
        [None, None, Some("plains1"), None],
    ).with_difficulty(Difficulty::easy());

    let plains1 = Sector::new(
        maps.plains1.as_str(),
        "plains1",
        Vec::new(),
        [Some("plains4"), Some("plains3"), Some("plains2"), Some("start")],
    );

    let plains2 = Sector::new(
        maps.plains2.as_str(),
        "plains2",
        Vec::new(),
        [None, None, Some("mountains1"), Some("plains1")],
    );

    let mut plains3_entities: Vec<Entity> = Vec::new();
    plains3_entities.push(
        Entity::new(4, 11, EntityKind::Item(Item::basic("Sword", next_id(&mut counter), Buff::Damage(2))), true),
    );
    let plains3 = Sector::new(
        maps.plains3.as_str(),
        "plains3",
        plains3_entities,
        [Some("plains1"), Some("peninsula1"), None, None],
    );

    let mut plains4_entities: Vec<Entity> = Vec::new();
    plains4_entities.push(
        Entity::new(
            20,
            11,
            EntityKind::Item(Item::basic("Chestplate", next_id(&mut counter), Buff::MaxHealth(3))),
            true,
        ),
    );
    let mut plains4 = Sector::new(
        maps.plains4.as_str(),
        "plains4",
        plains4_entities,
        [None, Some("plains1"), None, None],
    );
    plains4.entrance(17, 11, "village1");

    let mut vial: Vec<Buff> = Vec::new();
    vial.push(Buff::MaxHealth(3));
    vial.push(Buff::HungerCap(2));
    vial.push(Buff::ThirstCap(2));
    proof {
        assert(vial@ =~= seq![Buff::MaxHealth(3), Buff::HungerCap(2), Buff::ThirstCap(2)]);
    }
    let mut mountains1_entities: Vec<Entity> = Vec::new();
    mountains1_entities.push(
        Entity::new(3, 6, EntityKind::Item(Item::buffs("Vial of Fortitude", next_id(&mut counter), vial)), true),
    );
    let wanderer = lines(
        "You'd better be careful,\nthese wilds are dangerous.",
        "They say there's valuable\ntreasure past the river.",
        "Well, good luck, traveler!",
    );
    let nothing: Vec<(Item, usize)> = Vec::new();
    proof {
        assert(nothing.deep_view() =~= Seq::<(ItemView, usize)>::empty());
    }
    mountains1_entities.push(
        Entity::new(
            20,
            7,
            EntityKind::Npc { dialogue: wanderer, dialogue_idx: Some(0), items: nothing, id: next_id(&mut counter) },
            true,
        ),
    );
    let mountains1 = Sector::new(
        maps.mountains1.as_str(),
        "mountains1",
        mountains1_entities,
        [None, None, None, Some("plains2")],
    ).with_difficulty(
        Difficulty {
            food_mul: Factor::percent(50),
            food_food_mul: Factor::percent(150),
            enemy_mul: Factor::percent(200),
            enemy_health_mul: Factor::percent(200),
            enemy_damage_mul: Factor::percent(200),
        },
    );

    let mut axe_buffs: Vec<Buff> = Vec::new();
    axe_buffs.push(Buff::Damage(3));
    axe_buffs.push(Buff::MaxHealth(2));
    let mut axe_debuffs: Vec<Buff> = Vec::new();
    axe_debuffs.push(Buff::HungerCap(2));
    axe_debuffs.push(Buff::ThirstCap(2));
    proof {
        assert(axe_buffs@ =~= seq![Buff::Damage(3), Buff::MaxHealth(2)]);
        assert(axe_debuffs@ =~= seq![Buff::HungerCap(2), Buff::ThirstCap(2)]);
    }
    let mut peninsula1_entities: Vec<Entity> = Vec::new();
    peninsula1_entities.push(
        Entity::new(
            17,
            14,
            EntityKind::Item(Item::full("Battleaxe", next_id(&mut counter), axe_buffs, axe_debuffs)),
            true,
        ),
    );
    let peninsula1 = Sector::new(
        maps.peninsula1.as_str(),
        "peninsula1",
        peninsula1_entities,
        [Some("plains3"), None, None, None],
    ).with_difficulty(Difficulty::hard());

    let host = lines(
        "Welcome, traveler!\nStay as long as you like.",
        "We're a quiet town, so don't\nexpect many attractions.",
        "I've got to get back to work.",
    );
    let mut gifts: Vec<(Item, usize)> = Vec::new();
    gifts.push((Item::basic("Pouch", next_id(&mut counter), Buff::HungerCap(2)), 2));
    proof {
        assert(gifts.deep_view() =~= seq![
            (ItemView { name: "Pouch"@, buffs: seq![Buff::HungerCap(2)], debuffs: seq![], id: 8 }, 2usize),
        ]);
    }
    let mut village1_entities: Vec<Entity> = Vec::new();
    village1_entities.push(
        Entity::new(
            3,
            2,
            EntityKind::Npc { dialogue: host, dialogue_idx: Some(0), items: gifts, id: next_id(&mut counter) },
            true,
        ),
    );
    let village1 = Sector::town(maps.village1.as_str(), "village1", village1_entities, "plains4", 17, 11);

    proof {
        assert(start@.neighbors =~= sector_links()[0]);
        assert(plains1@.neighbors =~= sector_links()[1]);
        assert(plains2@.neighbors =~= sector_links()[2]);
        assert(plains3@.neighbors =~= sector_links()[3]);
        assert(plains4@.neighbors =~= sector_links()[4]);
        assert(mountains1@.neighbors =~= sector_links()[5]);
        assert(peninsula1@.neighbors =~= sector_links()[6]);
        assert(village1@.neighbors =~= sector_links()[7]);
        assert(plains4@.entrances =~= seq![(17u32, 11u32, "village1"@)]);
        assert(start@.entities =~= sector_residents()[0]);
        assert(plains1@.entities =~= sector_residents()[1]);
        assert(plains2@.entities =~= sector_residents()[2]);
        assert(plains3@.entities =~= sector_residents()[3]);
        assert(plains4@.entities =~= sector_residents()[4]);
        assert(mountains1@.entities =~= sector_residents()[5]);
        assert(peninsula1@.entities =~= sector_residents()[6]);
        assert(village1@.entities =~= sector_residents()[7]);
        assert(start@ == planned(*maps, 0));
        assert(plains1@ == planned(*maps, 1));
        assert(plains2@ == planned(*maps, 2));
        assert(plains3@ == planned(*maps, 3));
        assert(plains4@ == planned(*maps, 4));
        assert(mountains1@ == planned(*maps, 5));
        assert(peninsula1@ == planned(*maps, 6));
        assert(village1@ == planned(*maps, 7));
        assert(start@.wf());
        assert(plains1@.wf());
        assert(plains2@.wf());
        assert(plains3@.wf());
        assert(plains4@.wf());
        assert(mountains1@.wf());
        assert(peninsula1@.wf());
        assert(village1@.wf());
    }

    let mut r: Vec<Sector> = Vec::new();
    r.push(start);
    r.push(plains1);
    r.push(plains2);
    r.push(plains3);
    r.push(plains4);
    r.push(mountains1);
    r.push(peninsula1);
    r.push(village1);

    proof {
        let all = r.deep_view();
        lemma_names_differ();
        assert(all[0] == start@);
        assert(all[1] == plains1@);
        assert(all[2] == plains2@);
        assert(all[3] == plains3@);
        assert(all[4] == plains4@);
        assert(all[5] == mountains1@);
        assert(all[6] == peninsula1@);
        assert(all[7] == village1@);
        assert forall|i: int| 0 <= i < 8 implies #[trigger] all[i] == planned(*maps, i) by {}
        lemma_member_registered(all, 0);
        lemma_member_registered(all, 1);
        lemma_member_registered(all, 2);
        lemma_member_registered(all, 3);
        lemma_member_registered(all, 4);
        lemma_member_registered(all, 5);
        lemma_member_registered(all, 6);
        lemma_member_registered(all, 7);
        assert forall|i: int| 0 <= i < all.len() implies links_closed(all, #[trigger] all[i]) by {}
        assert forall|i: int, j: int| 0 <= i < all.len() && 0 <= j < all.len() && i != j implies (#[trigger] all[i]).id
            != (#[trigger] all[j]).id by {
            assert(sector_names()[i] != sector_names()[j]);
        }
    }
    r
}

/// The sectors of the adventure, or `None` if one of the map texts is not
/// a valid map.
pub fn try_sectors(maps: &MapTexts) -> (r: Option<Vec<Sector>>)
    ensures
        r is Some <==> maps.valid(),
        r matches Some(all) ==> {
            &&& registry_wf(all.deep_view())
            &&& all.len() == 8
            &&& forall|i: int| 0 <= i < 8 ==> #[trigger] all.deep_view()[i] == planned(*maps, i)
            &&& registered(all.deep_view(), "start"@)
        },
{
    if maps.check() {
        Some(sectors(maps))
    } else {
        None
    }
}

} // verus!
