//! Sectors: fixed-size grids of tiles with their entities and their links to
//! other sectors.

use vstd::prelude::*;
use crate::difficulty::Difficulty;
use crate::entity::{check_entities, Entity, EntityView, all_wf};
use crate::map::{Direction, Tile, TileKind};

verus! {

/// The number of tiles in a row of a sector.
pub const WIDTH: usize = 24;

/// The number of rows of a sector.
pub const HEIGHT: usize = 16;

/// The text without its leading and trailing whitespace.
pub uninterp spec fn trimmed(text: Seq<char>) -> Seq<char>;

/// `str::trim` of the standard library: the slice of `text` that is left
/// when leading and trailing whitespace is removed. The contract only names
/// the result.
#[verifier::external_body]
fn trim(text: &str) -> (r: &str)
    ensures
        r@ == trimmed(text@),
{
    text.trim()
}

/// Whether a map text, without the whitespace around it, is a valid map.
pub fn is_valid_map(map: &str) -> (r: bool)
    ensures
        r == valid_map(trimmed(map@)),
{
    parse_grid(trim(map)).is_some()
}

/// A grid of water, `HEIGHT` rows of `WIDTH` tiles.
pub open spec fn blank_grid() -> Seq<Seq<Tile>> {
    Seq::new(HEIGHT as nat, |y: int| Seq::new(WIDTH as nat, |x: int| Tile { kind: TileKind::Water }))
}

/// Whether `grid` has `HEIGHT` rows of `WIDTH` tiles.
pub open spec fn grid_shaped(grid: Seq<Seq<Tile>>) -> bool {
    &&& grid.len() == HEIGHT
    &&& forall|y: int| 0 <= y < HEIGHT ==> (#[trigger] grid[y]).len() == WIDTH
}

/// The rows of a grid as sequences.
pub open spec fn grid_view(tiles: [[Tile; WIDTH]; HEIGHT]) -> Seq<Seq<Tile>> {
    Seq::new(HEIGHT as nat, |y: int| tiles@[y]@)
}

/// `grid` with the tile at `(x, y)` replaced.
pub open spec fn grid_with(grid: Seq<Seq<Tile>>, x: int, y: int, tile: Tile) -> Seq<Seq<Tile>> {
    grid.update(y, grid[y].update(x, tile))
}

/// The state of reading a map text: the grid filled so far, the place of the
/// next tile, and whether every character read was a known one.
pub struct Scan {
    pub tiles: Seq<Seq<Tile>>,
    pub x: int,
    pub y: int,
    pub valid: bool,
}

impl Scan {
    /// Before the first character: a grid of water, the cursor at the top
    /// left.
    pub open spec fn start() -> Scan {
        Scan { tiles: blank_grid(), x: 0, y: 0, valid: true }
    }

    /// Reading has stopped: at an unknown character, or below the last row.
    pub open spec fn stopped(self) -> bool {
        !self.valid || self.y >= HEIGHT
    }

    /// The state after one more character. A tile character fills the tile
    /// under the cursor and moves the cursor on, to the next row after the
    /// last tile of a row. A newline ends the row, unless the row is still
    /// empty. Blanks and tabs are skipped. Any other character is an error.
    /// Once reading has stopped nothing changes any more.
    pub open spec fn step(self, c: char) -> Scan {
        if self.stopped() {
            self
        } else if TileKind::spec_from_symbol(c) is Some {
            let tile = Tile { kind: TileKind::spec_from_symbol(c)->0 };
            let tiles = grid_with(self.tiles, self.x, self.y, tile);
            if self.x + 1 >= WIDTH {
                Scan { tiles, x: 0, y: self.y + 1, valid: true }
            } else {
                Scan { tiles, x: self.x + 1, y: self.y, valid: true }
            }
        } else if c == '\n' {
            if self.x != 0 {
                Scan { x: 0, y: self.y + 1, ..self }
            } else {
                self
            }
        } else if c == ' ' || c == '\t' {
            self
        } else {
            Scan { valid: false, ..self }
        }
    }
}

/// The state after reading the whole of `text`.
pub open spec fn scan(text: Seq<char>) -> Scan
    decreases text.len(),
{
    if text.len() == 0 {
        Scan::start()
    } else {
        scan(text.drop_last()).step(text.last())
    }
}

/// Whether a map text holds nothing but tile characters, blanks, tabs and
/// newlines, up to the end of the last row.
pub open spec fn valid_map(text: Seq<char>) -> bool {
    scan(text).valid
}

/// Once reading has stopped, the rest of the text does not matter.
proof fn lemma_scan_stopped(text: Seq<char>, n: int)
    requires
        0 <= n <= text.len(),
        scan(text.take(n)).stopped(),
    ensures
        scan(text) == scan(text.take(n)),
    decreases text.len() - n,
{
    if n < text.len() {
        assert(text.take(n + 1).drop_last() =~= text.take(n));
        lemma_scan_stopped(text, n + 1);
    } else {
        assert(text.take(n) =~= text);
    }
}

/// Reads a map text into a grid. Returns `None` if the text is not a valid
/// map.
pub fn parse_grid(text: &str) -> (r: Option<[[Tile; WIDTH]; HEIGHT]>)
    ensures
        r is Some <==> valid_map(text@),
        r is Some ==> grid_view(r->0) == scan(text@).tiles,
{
    let water = Tile { kind: TileKind::Water };
    let mut tiles = [[water; WIDTH]; HEIGHT];
    let mut x: usize = 0;
    let mut y: usize = 0;
    proof {
        assert(grid_view(tiles) =~~= blank_grid());
        assert(text@.take(0) =~= Seq::<char>::empty());
    }
    for c in it: text.chars()
        invariant
            it.seq() == text@,
            x < WIDTH,
            y <= HEIGHT,
            it.index() <= text@.len(),
            scan(text@.take(it.index() as int)) == (Scan {
                tiles: grid_view(tiles),
                x: x as int,
                y: y as int,
                valid: true,
            }),
    {
        let ghost n = it.index() as int;
        proof {
            assert(text@.take(n + 1).drop_last() =~= text@.take(n));
            assert(text@.take(n + 1).last() == c);
        }
        if y < HEIGHT {
            match TileKind::from_symbol(c) {
                Some(kind) => {
                    let ghost before = grid_view(tiles);
                    tiles[y][x] = Tile { kind };
                    proof {
                        assert(grid_view(tiles) =~~= grid_with(before, x as int, y as int, Tile { kind }));
                    }
                    x = x + 1;
                    if x >= WIDTH {
                        y = y + 1;
                        x = 0;
                    }
                },
                None => {
                    if c == '\n' {
                        if x != 0 {
                            y = y + 1;
                            x = 0;
                        }
                    } else if c == ' ' || c == '\t' {
                    } else {
                        proof {
                            lemma_scan_stopped(text@, n + 1);
                        }
                        return None;
                    }
                },
            }
        }
    }
    proof {
        assert(text@.take(text@.len() as int) =~= text@);
    }
    Some(tiles)
}

/// The mathematical value of a sector.
pub struct SectorView {
    pub id: Seq<char>,
    pub tiles: Seq<Seq<Tile>>,
    pub entities: Seq<EntityView>,
    pub neighbors: Seq<Option<Seq<char>>>,
    pub changed: Seq<(u32, u32)>,
    pub difficulty: Difficulty,
    pub do_survival: bool,
    pub entrances: Seq<(u32, u32, Seq<char>)>,
    pub return_tile: Option<(u32, u32)>,
}

/// The index of the first entrance at `(x, y)`, or the number of entrances
/// if there is none.
pub open spec fn entrance_index(entrances: Seq<(u32, u32, Seq<char>)>, x: u32, y: u32) -> int
    decreases entrances.len(),
{
    if entrances.len() == 0 {
        0
    } else if entrances[0].0 == x && entrances[0].1 == y {
        0
    } else {
        1 + entrance_index(entrances.drop_first(), x, y)
    }
}

/// The index of the first entity with the identifier `id`, or the number of
/// entities if there is none.
pub open spec fn index_of_id(entities: Seq<EntityView>, id: u32) -> int
    decreases entities.len(),
{
    if entities.len() == 0 {
        0
    } else if entities[0].kind.id() == Some(id) {
        0
    } else {
        1 + index_of_id(entities.drop_first(), id)
    }
}

/// `entities` without the first entity that has the identifier `id`.
pub open spec fn without_id(entities: Seq<EntityView>, id: u32) -> Seq<EntityView> {
    let i = index_of_id(entities, id);
    if i < entities.len() {
        entities.remove(i)
    } else {
        entities
    }
}

pub proof fn lemma_index_of_id(entities: Seq<EntityView>, id: u32)
    ensures
        0 <= index_of_id(entities, id) <= entities.len(),
        index_of_id(entities, id) < entities.len() ==> entities[index_of_id(entities, id)].kind.id()
            == Some(id),
        forall|j: int| 0 <= j < index_of_id(entities, id) ==> (#[trigger] entities[j]).kind.id() != Some(id),
    decreases entities.len(),
{
    if entities.len() > 0 && entities[0].kind.id() != Some(id) {
        lemma_index_of_id(entities.drop_first(), id);
        let rest = entities.drop_first();
        assert forall|j: int| 0 <= j < index_of_id(entities, id) implies (#[trigger] entities[j]).kind.id()
            != Some(id) by {
            if j > 0 {
                assert(entities[j] == rest[j - 1]);
            }
        }
    }
}

pub proof fn lemma_entrance_index(entrances: Seq<(u32, u32, Seq<char>)>, x: u32, y: u32)
    ensures
        0 <= entrance_index(entrances, x, y) <= entrances.len(),
        entrance_index(entrances, x, y) < entrances.len() ==> {
            let e = entrances[entrance_index(entrances, x, y)];
            e.0 == x && e.1 == y
        },
        forall|j: int|
            0 <= j < entrance_index(entrances, x, y) ==> !((#[trigger] entrances[j]).0 == x && entrances[j].1
                == y),
    decreases entrances.len(),
{
    if entrances.len() > 0 && !(entrances[0].0 == x && entrances[0].1 == y) {
        lemma_entrance_index(entrances.drop_first(), x, y);
        let rest = entrances.drop_first();
        assert forall|j: int| 0 <= j < entrance_index(entrances, x, y) implies !((
        #[trigger] entrances[j]).0 == x && entrances[j].1 == y) by {
            if j > 0 {
                assert(entrances[j] == rest[j - 1]);
            }
        }
    }
}

impl SectorView {
    /// The tile at `(x, y)`, or `None` outside the grid.
    pub open spec fn tile(self, x: u32, y: u32) -> Option<Tile> {
        if x < WIDTH && y < HEIGHT {
            Some(self.tiles[y as int][x as int])
        } else {
            None
        }
    }

    /// The sector after the tile at `(x, y)` was set: the grid holds the
    /// tile, and the coordinates are appended to the log of changes.
    pub open spec fn with_tile(self, x: u32, y: u32, tile: Tile) -> SectorView {
        SectorView {
            tiles: grid_with(self.tiles, x as int, y as int, tile),
            changed: self.changed.push((x, y)),
            ..self
        }
    }

    /// The sector that the first entrance at `(x, y)` leads to.
    pub open spec fn entrance_at(self, x: u32, y: u32) -> Option<Seq<char>> {
        let i = entrance_index(self.entrances, x, y);
        if i < self.entrances.len() {
            Some(self.entrances[i].2)
        } else {
            None
        }
    }

    /// Whether the coordinates `(x, y)` stand in the log of changes.
    pub open spec fn logged(self, x: u32, y: u32) -> bool {
        exists|k: int| 0 <= k < self.changed.len() && #[trigger] self.changed[k] == (x, y)
    }

    /// Whether the coordinates `(x, y)` stand among the first `n` entries of
    /// the log of changes.
    pub open spec fn logged_by(self, n: int, x: u32, y: u32) -> bool {
        exists|k: int| 0 <= k < n && k < self.changed.len() && #[trigger] self.changed[k] == (x, y)
    }

    /// Whether the sector has the tiles of `baseline` wherever its log of
    /// changes names no change.
    pub open spec fn follows(self, baseline: SectorView) -> bool {
        forall|x: u32, y: u32|
            x < WIDTH && y < HEIGHT && !#[trigger] self.logged(x, y) ==> self.tiles[y as int][x as int]
                == baseline.tiles[y as int][x as int]
    }

    /// A sector is well formed when its grid has the fixed size, it names a
    /// neighbor or none for each direction, its entities are well formed,
    /// every logged change and the return tile lie inside the grid, and its
    /// difficulty is plain.
    pub open spec fn wf(self) -> bool {
        &&& grid_shaped(self.tiles)
        &&& self.neighbors.len() == 4
        &&& all_wf(self.entities)
        &&& forall|k: int|
            0 <= k < self.changed.len() ==> (#[trigger] self.changed[k]).0 < WIDTH && self.changed[k].1 < HEIGHT
        &&& self.return_tile matches Some(t) ==> t.0 < WIDTH && t.1 < HEIGHT
        &&& self.difficulty.plain()
    }

    /// Setting a tile inside the grid keeps a sector well formed, and
    /// keeps it following a baseline that it followed.
    pub proof fn lemma_with_tile(self, x: u32, y: u32, tile: Tile, baseline: SectorView)
        requires
            self.wf(),
            x < WIDTH,
            y < HEIGHT,
        ensures
            self.with_tile(x, y, tile).wf(),
            self.with_tile(x, y, tile).tiles[y as int][x as int] == tile,
            self.with_tile(x, y, tile).logged(x, y),
            self.follows(baseline) ==> self.with_tile(x, y, tile).follows(baseline),
    {
        let after = self.with_tile(x, y, tile);
        assert(grid_shaped(after.tiles)) by {
            assert forall|row: int| 0 <= row < HEIGHT implies (#[trigger] after.tiles[row]).len() == WIDTH by {
                assert(self.tiles[row].len() == WIDTH);
            }
        }
        assert(self.tiles[y as int].len() == WIDTH);
        assert(after.changed[self.changed.len() as int] == (x, y));
        assert forall|k: int| 0 <= k < after.changed.len() implies (#[trigger] after.changed[k]).0 < WIDTH
            && after.changed[k].1 < HEIGHT by {
            if k < self.changed.len() {
                assert(after.changed[k] == self.changed[k]);
            }
        }
        if self.follows(baseline) {
            assert forall|x2: u32, y2: u32|
                x2 < WIDTH && y2 < HEIGHT && !#[trigger] after.logged(x2, y2) implies after.tiles[y2 as int][x2 as int]
                == baseline.tiles[y2 as int][x2 as int] by {
                assert(self.tiles[y2 as int].len() == WIDTH);
                if self.logged(x2, y2) {
                    let k = choose|k: int| 0 <= k < self.changed.len() && #[trigger] self.changed[k] == (x2, y2);
                    assert(after.changed[k] == (x2, y2));
                }
                assert(!(x2 == x && y2 == y));
            }
        }
    }
}

/// One fixed-size region of the world: a grid of tiles, the entities that
/// stay in it, and the sectors one reaches from it.
#[derive(Debug, PartialEq, Hash)]
pub struct Sector {
    /// The name under which the sector is registered.
    pub id: String,
    /// The grid, row by row.
    pub tiles: [[Tile; WIDTH]; HEIGHT],
    /// The entities that are in the sector while the player is elsewhere.
    pub entities: Vec<Entity>,
    /// The neighbor in each direction: up, down, left, right.
    pub neighbors: [Option<String>; 4],
    /// The coordinates of every tile that was set, in the order of setting.
    pub changed: Vec<(u32, u32)>,
    /// The sector's own difficulty, composed with the player's.
    pub difficulty: Difficulty,
    /// Whether hunger and thirst grow in this sector.
    pub do_survival: bool,
    /// Tiles inside the grid that lead to another sector.
    pub entrances: Vec<(u32, u32, String)>,
    /// Where the player is put on arriving, instead of the opposite edge.
    pub return_tile: Option<(u32, u32)>,
}

impl View for Sector {
    type V = SectorView;

    open spec fn view(&self) -> SectorView {
        SectorView {
            id: self.id@,
            tiles: grid_view(self.tiles),
            entities: self.entities.deep_view(),
            neighbors: self.neighbors.deep_view(),
            changed: self.changed@,
            difficulty: self.difficulty,
            do_survival: self.do_survival,
            entrances: self.entrances.deep_view(),
            return_tile: self.return_tile,
        }
    }
}

impl DeepView for Sector {
    type V = SectorView;

    open spec fn deep_view(&self) -> SectorView {
        self@
    }
}

/// Copies a list of entities.
pub fn clone_entities(entities: &[Entity]) -> (r: Vec<Entity>)
    ensures
        r.deep_view() == entities.deep_view(),
{
    let mut r: Vec<Entity> = Vec::new();
    let mut i: usize = 0;
    while i < entities.len()
        invariant
            i <= entities.len(),
            r.len() == i,
            forall|j: int| 0 <= j < i ==> r[j]@ == entities[j]@,
        decreases entities.len() - i,
    {
        r.push(entities[i].clone());
        i = i + 1;
    }
    proof {
        assert(r.deep_view() =~= entities.deep_view());
    }
    r
}

fn clone_name(name: &Option<String>) -> (r: Option<String>)
    ensures
        r.deep_view() == name.deep_view(),
{
    match name {
        Some(s) => Some(s.clone()),
        None => None,
    }
}

fn own_name(name: Option<&str>) -> (r: Option<String>)
    ensures
        r.deep_view() == name.deep_view(),
{
    match name {
        Some(s) => Some(s.to_owned()),
        None => None,
    }
}

fn copy_coordinates(list: &Vec<(u32, u32)>) -> (r: Vec<(u32, u32)>)
    ensures
        r@ == list@,
{
    let mut r: Vec<(u32, u32)> = Vec::new();
    let mut i: usize = 0;
    while i < list.len()
        invariant
            i <= list.len(),
            r@ == list@.take(i as int),
        decreases list.len() - i,
    {
        r.push(list[i]);
        proof {
            assert(r@ =~= list@.take(i + 1));
        }
        i = i + 1;
    }
    proof {
        assert(list@.take(i as int) =~= list@);
    }
    r
}

fn clone_entrances(entrances: &Vec<(u32, u32, String)>) -> (r: Vec<(u32, u32, String)>)
    ensures
        r.deep_view() == entrances.deep_view(),
{
    let mut r: Vec<(u32, u32, String)> = Vec::new();
    let mut i: usize = 0;
    while i < entrances.len()
        invariant
            i <= entrances.len(),
            r.len() == i,
            forall|j: int| 0 <= j < i ==> r[j].0 == entrances[j].0 && r[j].1 == entrances[j].1 && r[j].2@
                == entrances[j].2@,
        decreases entrances.len() - i,
    {
        r.push((entrances[i].0, entrances[i].1, entrances[i].2.clone()));
        i = i + 1;
    }
    proof {
        assert(r.deep_view() =~= entrances.deep_view());
    }
    r
}

impl Clone for Sector {
    fn clone(&self) -> (r: Sector)
        ensures
            r@ == self@,
    {
        let neighbors = [
            clone_name(&self.neighbors[0]),
            clone_name(&self.neighbors[1]),
            clone_name(&self.neighbors[2]),
            clone_name(&self.neighbors[3]),
        ];
        let entities = clone_entities(self.entities());
        let changed = copy_coordinates(&self.changed);
        proof {
            assert(neighbors.deep_view() =~= self.neighbors.deep_view());
        }
        Sector {
            id: self.id.clone(),
            tiles: self.tiles,
            entities,
            neighbors,
            changed,
            difficulty: self.difficulty,
            do_survival: self.do_survival,
            entrances: clone_entrances(&self.entrances),
            return_tile: self.return_tile,
        }
    }
}

impl Sector {
    /// The value of a sector freshly made from a map text.
    pub open spec fn fresh(
        text: Seq<char>,
        id: Seq<char>,
        entities: Seq<EntityView>,
        neighbors: Seq<Option<Seq<char>>>,
    ) -> SectorView {
        SectorView {
            id,
            tiles: scan(text).tiles,
            entities,
            neighbors,
            changed: Seq::empty(),
            difficulty: Difficulty::of_percents(100, 100, 100, 100, 100),
            do_survival: true,
            entrances: Seq::empty(),
            return_tile: None,
        }
    }

    /// A sector whose grid is read from the map text `text`, as it stands,
    /// with the neutral difficulty, growing hunger and thirst, no entrances
    /// and no return tile. Returns `None` if the text is not a valid map.
    pub fn from_text(text: &str, id: &str, entities: Vec<Entity>, neighbors: [Option<&str>; 4]) -> (r: Option<
        Sector,
    >)
        ensures
            r is Some <==> valid_map(text@),
            r is Some ==> r->0@ == Sector::fresh(text@, id@, entities.deep_view(), neighbors.deep_view()),
    {
        match parse_grid(text) {
            Some(tiles) => {
                let names = [
                    own_name(neighbors[0]),
                    own_name(neighbors[1]),
                    own_name(neighbors[2]),
                    own_name(neighbors[3]),
                ];
                let entrances: Vec<(u32, u32, String)> = Vec::new();
                proof {
                    assert(names.deep_view() =~= neighbors.deep_view());
                    assert(entrances.deep_view() =~= Seq::<(u32, u32, Seq<char>)>::empty());
                }
                Some(
                    Sector {
                        id: id.to_owned(),
                        tiles,
                        entities,
                        neighbors: names,
                        changed: Vec::new(),
                        difficulty: Difficulty::normal(),
                        do_survival: true,
                        entrances,
                        return_tile: None,
                    },
                )
            },
            None => None,
        }
    }

    /// A sector whose grid is read from the map text `map` without the
    /// whitespace around it. The sector has the neutral difficulty, lets
    /// hunger and thirst grow, and has no entrances and no return tile.
    pub fn new(map: &str, id: &str, entities: Vec<Entity>, neighbors: [Option<&str>; 4]) -> (r: Sector)
        requires
            valid_map(trimmed(map@)),
        ensures
            r@ == Sector::fresh(trimmed(map@), id@, entities.deep_view(), neighbors.deep_view()),
    {
        Sector::from_text(trim(map), id, entities, neighbors).unwrap()
    }

    /// The sector that `new` makes, or `None` if the map text, without the
    /// whitespace around it, is not a valid map.
    pub fn parse(map: &str, id: &str, entities: Vec<Entity>, neighbors: [Option<&str>; 4]) -> (r: Option<
        Sector,
    >)
        ensures
            r is Some <==> valid_map(trimmed(map@)),
            r is Some ==> r->0@ == Sector::fresh(trimmed(map@), id@, entities.deep_view(), neighbors.deep_view()),
    {
        if is_valid_map(map) {
            Some(Sector::new(map, id, entities, neighbors))
        } else {
            None
        }
    }

    /// The town that `town` makes, or `None` if the map text, without the
    /// whitespace around it, is not a valid map.
    pub fn parse_town(map: &str, id: &str, entities: Vec<Entity>, outside: &str, return_x: u32, return_y: u32) -> (r:
        Option<Sector>)
        ensures
            r is Some <==> valid_map(trimmed(map@)),
            r is Some ==> r->0@ == (SectorView {
                do_survival: false,
                difficulty: Difficulty::of_percents(0, 0, 0, 0, 0),
                return_tile: Some((return_x, return_y)),
                ..Sector::fresh(trimmed(map@), id@, entities.deep_view(), Seq::new(4, |i: int| Some(outside@)))
            }),
    {
        if is_valid_map(map) {
            Some(Sector::town(map, id, entities, outside, return_x, return_y))
        } else {
            None
        }
    }

    /// Adds an entrance at `(x, y)` that leads to the sector `id`.
    pub fn entrance(&mut self, x: u32, y: u32, id: &str)
        ensures
            final(self)@ == (SectorView { entrances: old(self)@.entrances.push((x, y, id@)), ..old(self)@ }),
    {
        self.entrances.push((x, y, id.to_owned()));
        proof {
            assert(self.entrances.deep_view() =~= old(self).entrances.deep_view().push((x, y, id@)));
        }
    }

    /// The sector that the first entrance at `(x, y)` leads to, if there is
    /// an entrance.
    pub fn get_entrance(&self, x: u32, y: u32) -> (r: Option<&str>)
        ensures
            r.deep_view() == self@.entrance_at(x, y),
    {
        let mut i: usize = 0;
        proof {
            lemma_entrance_index(self@.entrances, x, y);
        }
        while i < self.entrances.len()
            invariant
                i <= self.entrances.len(),
                i <= entrance_index(self@.entrances, x, y),
                0 <= entrance_index(self@.entrances, x, y) <= self@.entrances.len(),
                entrance_index(self@.entrances, x, y) < self@.entrances.len() ==> {
                    let e = self@.entrances[entrance_index(self@.entrances, x, y)];
                    e.0 == x && e.1 == y
                },
                forall|j: int|
                    0 <= j < entrance_index(self@.entrances, x, y) ==> !((#[trigger] self@.entrances[j]).0
                        == x && self@.entrances[j].1 == y),
            decreases self.entrances.len() - i,
        {
            if self.entrances[i].0 == x && self.entrances[i].1 == y {
                assert(self@.entrances[i as int].0 == x && self@.entrances[i as int].1 == y);
                return Some(self.entrances[i].2.as_str());
            }
            assert(!(self@.entrances[i as int].0 == x && self@.entrances[i as int].1 == y));
            i = i + 1;
        }
        None
    }

    /// A town: a sector without hunger, thirst or spawning, whose four
    /// sides all lead to `outside`, and which puts the arriving player on
    /// the return tile.
    pub fn town(map: &str, id: &str, entities: Vec<Entity>, outside: &str, return_x: u32, return_y: u32) -> (r:
        Sector)
        requires
            valid_map(trimmed(map@)),
        ensures
            r@ == (SectorView {
                do_survival: false,
                difficulty: Difficulty::of_percents(0, 0, 0, 0, 0),
                return_tile: Some((return_x, return_y)),
                ..Sector::fresh(trimmed(map@), id@, entities.deep_view(), Seq::new(4, |i: int| Some(outside@)))
            }),
    {
        let sides = [Some(outside), Some(outside), Some(outside), Some(outside)];
        proof {
            assert(sides.deep_view() =~= Seq::new(4, |i: int| Some(outside@)));
        }
        let mut s = Sector::new(map, id, entities, sides);
        s.do_survival = false;
        s.difficulty = Difficulty::none();
        s.return_tile = Some((return_x, return_y));
        s
    }

    /// The entities that are in the sector while the player is elsewhere.
    pub fn entities(&self) -> (r: &[Entity])
        ensures
            r.deep_view() == self@.entities,
    {
        let r = self.entities.as_slice();
        proof {
            assert(r.deep_view() =~= self.entities.deep_view());
        }
        r
    }

    /// The sector's entities, to be changed in place.
    pub fn entities_mut(&mut self) -> (r: &mut [Entity])
        ensures
            r.deep_view() == old(self)@.entities,
            final(self)@ == (SectorView { entities: final(r).deep_view(), ..old(self)@ }),
    {
        let r = self.entities.as_mut_slice();
        proof {
            assert(r.deep_view() =~= old(self).entities.deep_view());
        }
        r
    }

    /// Replaces the sector's entities.
    pub fn save_entities(&mut self, entities: Vec<Entity>)
        ensures
            final(self)@ == (SectorView { entities: entities.deep_view(), ..old(self)@ }),
    {
        self.entities = entities;
    }

    /// Removes the entity at index `i`.
    pub fn despawn(&mut self, i: usize)
        requires
            i < old(self)@.entities.len(),
        ensures
            final(self)@ == (SectorView { entities: old(self)@.entities.remove(i as int), ..old(self)@ }),
    {
        self.entities.remove(i);
        proof {
            assert(self.entities.deep_view() =~= old(self).entities.deep_view().remove(i as int));
        }
    }

    /// Removes the first entity with the identifier `id`, if there is one.
    pub fn despawn_id(&mut self, id: u32)
        ensures
            final(self)@ == (SectorView { entities: without_id(old(self)@.entities, id), ..old(self)@ }),
    {
        proof {
            lemma_index_of_id(self@.entities, id);
        }
        let mut i: usize = 0;
        while i < self.entities.len()
            invariant
                *self == *old(self),
                i <= self.entities.len(),
                forall|j: int| 0 <= j < i ==> (#[trigger] self@.entities[j]).kind.id() != Some(id),
            decreases self.entities.len() - i,
        {
            if self.entities[i].id() == Some(id) {
                proof {
                    lemma_index_of_id(self@.entities, id);
                    assert(self@.entities[i as int].kind.id() == Some(id));
                    assert(index_of_id(self@.entities, id) == i);
                }
                self.despawn(i);
                return ;
            }
            assert(self@.entities[i as int].kind.id() != Some(id));
            i = i + 1;
        }
        proof {
            assert(index_of_id(self@.entities, id) == self@.entities.len());
        }
    }

    /// The coordinates of every tile that was set, in the order of setting;
    /// a tile set twice is listed twice.
    pub fn changed(&self) -> (r: &[(u32, u32)])
        ensures
            r@ == self@.changed,
    {
        self.changed.as_slice()
    }

    /// Makes `neighbor` the sector reached by leaving in `direction`.
    pub fn add_neighbor(&mut self, direction: Direction, neighbor: &str)
        ensures
            final(self)@ == (SectorView {
                neighbors: old(self)@.neighbors.update(direction.spec_index(), Some(neighbor@)),
                ..old(self)@
            }),
    {
        let i = direction.index();
        self.neighbors[i] = Some(neighbor.to_owned());
        proof {
            assert(self.neighbors.deep_view() =~= old(self).neighbors.deep_view().update(
                direction.spec_index(),
                Some(neighbor@),
            ));
        }
    }

    /// The sector reached by leaving in `direction`, if there is a passage.
    pub fn neighbor(&self, direction: Direction) -> (r: Option<&str>)
        ensures
            r.deep_view() == self@.neighbors[direction.spec_index()],
    {
        match &self.neighbors[direction.index()] {
            Some(s) => Some(s.as_str()),
            None => None,
        }
    }

    /// The grid, row by row.
    pub fn tiles(&self) -> (r: &[[Tile; WIDTH]; HEIGHT])
        ensures
            grid_view(*r) == self@.tiles,
    {
        &self.tiles
    }

    /// The tile at `(x, y)`, or `None` if the coordinates lie outside the
    /// grid.
    pub fn get(&self, x: u32, y: u32) -> (r: Option<Tile>)
        ensures
            r == self@.tile(x, y),
            r is Some <==> x < WIDTH && y < HEIGHT,
    {
        if (x as usize) < WIDTH && (y as usize) < HEIGHT {
            Some(self.tiles[y as usize][x as usize])
        } else {
            None
        }
    }

    /// Sets the tile at `(x, y)` and logs the coordinates as changed.
    pub fn set(&mut self, x: u32, y: u32, tile: Tile)
        requires
            x < WIDTH,
            y < HEIGHT,
        ensures
            final(self)@ == old(self)@.with_tile(x, y, tile),
    {
        let ix = x as usize;
        let iy = y as usize;
        self.tiles[iy][ix] = tile;
        self.changed.push((x, y));
        proof {
            assert(grid_view(self.tiles) =~~= grid_with(grid_view(old(self).tiles), x as int, y as int, tile));
        }
    }

    /// Whether the sector has the tiles of `baseline` wherever its log of
    /// changes names no change.
    pub fn follows(&self, baseline: &Sector) -> (r: bool)
        requires
            self@.wf(),
        ensures
            r == self@.follows(baseline@),
    {
        let mut marks = [[false; WIDTH]; HEIGHT];
        let mut k: usize = 0;
        proof {
            assert forall|x: u32, y: u32| x < WIDTH && y < HEIGHT implies marks[y as int][x as int]
                == #[trigger] self@.logged_by(0, x, y) by {}
        }
        while k < self.changed.len()
            invariant
                k <= self.changed.len(),
                self@.wf(),
                forall|x: u32, y: u32|
                    x < WIDTH && y < HEIGHT ==> marks[y as int][x as int] == #[trigger] self@.logged_by(k as int, x, y),
            decreases self.changed.len() - k,
        {
            let (cx, cy) = self.changed[k];
            let ghost before = marks;
            assert(self@.changed[k as int] == (cx, cy));
            marks[cy as usize][cx as usize] = true;
            proof {
                assert forall|x: u32, y: u32| x < WIDTH && y < HEIGHT implies marks[y as int][x as int]
                    == #[trigger] self@.logged_by(k + 1, x, y) by {
                    if x == cx && y == cy {
                        assert(self@.changed[k as int] == (x, y));
                    } else {
                        assert(marks[y as int][x as int] == before[y as int][x as int]);
                        assert(before[y as int][x as int] == self@.logged_by(k as int, x, y));
                        if self@.logged_by(k + 1, x, y) {
                            let j = choose|j: int|
                                0 <= j < k + 1 && j < self@.changed.len() && #[trigger] self@.changed[j] == (x, y);
                            assert(j != k);
                            assert(self@.logged_by(k as int, x, y));
                        }
                        if self@.logged_by(k as int, x, y) {
                            let j = choose|j: int|
                                0 <= j < k && j < self@.changed.len() && #[trigger] self@.changed[j] == (x, y);
                            assert(0 <= j < k + 1);
                        }
                    }
                }
            }
            k = k + 1;
        }
        proof {
            assert forall|x: u32, y: u32| x < WIDTH && y < HEIGHT implies self@.logged(x, y) == #[trigger] self@.logged_by(
                k as int,
                x,
                y,
            ) by {
                if self@.logged(x, y) {
                    let j = choose|j: int| 0 <= j < self@.changed.len() && #[trigger] self@.changed[j] == (x, y);
                    assert(0 <= j < k && j < self@.changed.len());
                }
                if self@.logged_by(k as int, x, y) {
                    let j = choose|j: int|
                        0 <= j < k && j < self@.changed.len() && #[trigger] self@.changed[j] == (x, y);
                    assert(0 <= j < self@.changed.len());
                }
            }
            assert forall|x: u32, y: u32| x < WIDTH && y < HEIGHT implies marks[y as int][x as int]
                == #[trigger] self@.logged(x, y) by {
                assert(marks[y as int][x as int] == self@.logged_by(k as int, x, y));
            }
        }
        let mut y: usize = 0;
        while y < HEIGHT
            invariant
                y <= HEIGHT,
                forall|x2: u32, y2: u32|
                    x2 < WIDTH && y2 < HEIGHT ==> marks[y2 as int][x2 as int] == #[trigger] self@.logged(x2, y2),
                forall|x2: u32, y2: u32|
                    x2 < WIDTH && y2 < y && !#[trigger] self@.logged(x2, y2) ==> self@.tiles[y2 as int][x2 as int]
                        == baseline@.tiles[y2 as int][x2 as int],
            decreases HEIGHT - y,
        {
            let mut x: usize = 0;
            while x < WIDTH
                invariant
                    x <= WIDTH,
                    y < HEIGHT,
                    forall|x2: u32, y2: u32|
                        x2 < WIDTH && y2 < HEIGHT ==> marks[y2 as int][x2 as int] == #[trigger] self@.logged(x2, y2),
                    forall|x2: u32, y2: u32|
                        x2 < WIDTH && y2 < y && !#[trigger] self@.logged(x2, y2) ==> self@.tiles[y2 as int][x2 as int]
                            == baseline@.tiles[y2 as int][x2 as int],
                    forall|x2: u32|
                        x2 < x && !#[trigger] self@.logged(x2, y as u32) ==> self@.tiles[y as int][x2 as int]
                            == baseline@.tiles[y as int][x2 as int],
                decreases WIDTH - x,
            {
                assert(marks[y as int][x as int] == self@.logged(x as u32, y as u32));
                if !marks[y][x] && self.tiles[y][x] != baseline.tiles[y][x] {
                    proof {
                        assert(!self@.logged(x as u32, y as u32));
                        assert(self@.tiles[y as int][x as int] != baseline@.tiles[y as int][x as int]);
                    }
                    return false;
                }
                x = x + 1;
            }
            proof {
                assert forall|x2: u32, y2: u32|
                    x2 < WIDTH && y2 < y + 1 && !#[trigger] self@.logged(x2, y2) implies self@.tiles[y2 as int][x2 as int]
                    == baseline@.tiles[y2 as int][x2 as int] by {
                    if y2 == y {
                        assert(!self@.logged(x2, y as u32));
                    }
                }
            }
            y = y + 1;
        }
        true
    }

    /// Whether the sector is well formed.
    pub fn check(&self) -> (r: bool)
        ensures
            r == self@.wf(),
    {
        proof {
            assert(grid_shaped(self@.tiles));
            assert(self@.neighbors.len() == 4);
        }
        if !check_entities(&self.entities) {
            return false;
        }
        let mut k: usize = 0;
        while k < self.changed.len()
            invariant
                k <= self.changed.len(),
                all_wf(self@.entities),
                forall|j: int|
                    0 <= j < k ==> (#[trigger] self@.changed[j]).0 < WIDTH && self@.changed[j].1 < HEIGHT,
            decreases self.changed.len() - k,
        {
            if self.changed[k].0 as usize >= WIDTH || self.changed[k].1 as usize >= HEIGHT {
                assert(!(self@.changed[k as int].0 < WIDTH && self@.changed[k as int].1 < HEIGHT));
                return false;
            }
            k = k + 1;
        }
        match self.return_tile {
            Some((x, y)) => {
                if x as usize >= WIDTH || y as usize >= HEIGHT {
                    return false;
                }
            },
            None => {},
        }
        self.difficulty.is_plain()
    }

    /// The sector with another difficulty.
    pub fn with_difficulty(self, difficulty: Difficulty) -> (r: Sector)
        ensures
            r@ == (SectorView { difficulty, ..self@ }),
    {
        let mut s = self;
        s.difficulty = difficulty;
        s
    }
}

} // verus!
