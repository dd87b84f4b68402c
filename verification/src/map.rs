//! Directions, tiles, and the registry of sectors with its active sector.

use vstd::prelude::*;
use crate::entity::{Entity, all_wf};
use crate::sector::{clone_entities, Sector, SectorView, HEIGHT, WIDTH};

verus! {

/// One of the four ways to leave a tile or a sector.
#[derive(Debug, Clone, Copy, PartialEq, Eq, Hash, Structural)]
pub enum Direction {
    Up,
    Down,
    Left,
    Right,
}

impl Direction {
    /// The direction's position in a list of neighbors: up, down, left,
    /// right.
    pub open spec fn spec_index(self) -> int {
        match self {
            Direction::Up => 0,
            Direction::Down => 1,
            Direction::Left => 2,
            Direction::Right => 3,
        }
    }

    /// The direction at a position in a list of neighbors.
    pub open spec fn spec_from_index(index: int) -> Direction {
        if index == 0 {
            Direction::Up
        } else if index == 1 {
            Direction::Down
        } else if index == 2 {
            Direction::Left
        } else {
            Direction::Right
        }
    }

    /// The tile reached by one step from `(x, y)`, held at zero where the
    /// step would leave the coordinates on the low side and at `u32::MAX` on
    /// the high side.
    pub open spec fn spec_step(self, x: u32, y: u32) -> (u32, u32) {
        match self {
            Direction::Up => (x, if y == 0 { 0u32 } else { (y - 1) as u32 }),
            Direction::Down => (x, if y == u32::MAX { y } else { (y + 1) as u32 }),
            Direction::Left => (if x == 0 { 0u32 } else { (x - 1) as u32 }, y),
            Direction::Right => (if x == u32::MAX { x } else { (x + 1) as u32 }, y),
        }
    }

    /// The tile reached by one step from `(x, y)`, wrapping around at the
    /// ends of `u32`.
    pub open spec fn spec_wrapping_step(self, x: u32, y: u32) -> (u32, u32) {
        match self {
            Direction::Up => (x, if y == 0 { u32::MAX } else { (y - 1) as u32 }),
            Direction::Down => (x, if y == u32::MAX { 0u32 } else { (y + 1) as u32 }),
            Direction::Left => (if x == 0 { u32::MAX } else { (x - 1) as u32 }, y),
            Direction::Right => (if x == u32::MAX { 0u32 } else { (x + 1) as u32 }, y),
        }
    }

    /// The change in `(x, y)` that one step makes; rows grow downwards.
    pub fn diff(&self) -> (r: (i32, i32))
        ensures
            r == match *self {
                Direction::Up => (0i32, -1i32),
                Direction::Down => (0i32, 1i32),
                Direction::Left => (-1i32, 0i32),
                Direction::Right => (1i32, 0i32),
            },
    {
        match self {
            Direction::Up => (0, -1),
            Direction::Down => (0, 1),
            Direction::Left => (-1, 0),
            Direction::Right => (1, 0),
        }
    }

    /// The direction's position in a list of neighbors.
    pub fn index(&self) -> (r: usize)
        ensures
            r == self.spec_index(),
            r < 4,
    {
        match self {
            Direction::Up => 0,
            Direction::Down => 1,
            Direction::Left => 2,
            Direction::Right => 3,
        }
    }

    /// The direction that a number below four stands for.
    pub fn from_index(index: u32) -> (r: Direction)
        requires
            index < 4,
        ensures
            r == Direction::spec_from_index(index as int),
            r.spec_index() == index,
    {
        if index == 0 {
            Direction::Up
        } else if index == 1 {
            Direction::Down
        } else if index == 2 {
            Direction::Left
        } else {
            Direction::Right
        }
    }

    /// One wrapping step from `(x, y)`.
    pub fn wrapping_step(&self, x: u32, y: u32) -> (r: (u32, u32))
        ensures
            r == self.spec_wrapping_step(x, y),
    {
        match self {
            Direction::Up => (x, y.wrapping_sub(1)),
            Direction::Down => (x, y.wrapping_add(1)),
            Direction::Left => (x.wrapping_sub(1), y),
            Direction::Right => (x.wrapping_add(1), y),
        }
    }

    /// One saturating step from `(x, y)`.
    pub fn step(&self, x: u32, y: u32) -> (r: (u32, u32))
        ensures
            r == self.spec_step(x, y),
    {
        match self {
            Direction::Up => (x, y.saturating_sub(1)),
            Direction::Down => (x, y.saturating_add(1)),
            Direction::Left => (x.saturating_sub(1), y),
            Direction::Right => (x.saturating_add(1), y),
        }
    }
}

/// What a tile is made of.
#[derive(Debug, Clone, Copy, PartialEq, Eq, Hash, Structural)]
pub enum TileKind {
    Water,
    Grass,
    Forest,
    Hill,
    Mountain,
    Road,
    Village,
    Building,
}

impl TileKind {
    /// The character that stands for the kind in a map text.
    pub open spec fn spec_symbol(self) -> char {
        match self {
            TileKind::Water => '~',
            TileKind::Grass => '_',
            TileKind::Forest => '$',
            TileKind::Hill => 'n',
            TileKind::Mountain => 'A',
            TileKind::Road => '=',
            TileKind::Village => '%',
            TileKind::Building => '^',
        }
    }

    /// The kind that a character of a map text stands for, if any.
    pub open spec fn spec_from_symbol(c: char) -> Option<TileKind> {
        if c == '~' {
            Some(TileKind::Water)
        } else if c == '_' {
            Some(TileKind::Grass)
        } else if c == '$' {
            Some(TileKind::Forest)
        } else if c == 'n' {
            Some(TileKind::Hill)
        } else if c == 'A' {
            Some(TileKind::Mountain)
        } else if c == '=' {
            Some(TileKind::Road)
        } else if c == '%' {
            Some(TileKind::Village)
        } else if c == '^' {
            Some(TileKind::Building)
        } else {
            None
        }
    }

    /// The kind's display color, as red, green and blue.
    pub open spec fn spec_color(self) -> (u8, u8, u8) {
        match self {
            TileKind::Water => (0u8, 77u8, 153u8),
            TileKind::Grass => (0u8, 153u8, 25u8),
            TileKind::Forest => (0u8, 77u8, 38u8),
            TileKind::Hill => (255u8, 238u8, 230u8),
            TileKind::Mountain => (230u8, 255u8, 242u8),
            TileKind::Road => (153u8, 128u8, 77u8),
            TileKind::Village => (204u8, 153u8, 51u8),
            TileKind::Building => (128u8, 128u8, 128u8),
        }
    }

    /// Whether a wandering entity may step onto a tile of this kind.
    pub open spec fn spec_walkable(self) -> bool {
        !(self is Water || self is Mountain || self is Village || self is Building)
    }

    /// The character that stands for the kind in a map text.
    pub fn symbol(&self) -> (r: char)
        ensures
            r == self.spec_symbol(),
            TileKind::spec_from_symbol(r) == Some(*self),
    {
        match self {
            TileKind::Water => '~',
            TileKind::Grass => '_',
            TileKind::Forest => '$',
            TileKind::Hill => 'n',
            TileKind::Mountain => 'A',
            TileKind::Road => '=',
            TileKind::Village => '%',
            TileKind::Building => '^',
        }
    }

    /// The kind that a character of a map text stands for, if any.
    pub fn from_symbol(c: char) -> (r: Option<TileKind>)
        ensures
            r == TileKind::spec_from_symbol(c),
    {
        if c == '~' {
            Some(TileKind::Water)
        } else if c == '_' {
            Some(TileKind::Grass)
        } else if c == '$' {
            Some(TileKind::Forest)
        } else if c == 'n' {
            Some(TileKind::Hill)
        } else if c == 'A' {
            Some(TileKind::Mountain)
        } else if c == '=' {
            Some(TileKind::Road)
        } else if c == '%' {
            Some(TileKind::Village)
        } else if c == '^' {
            Some(TileKind::Building)
        } else {
            None
        }
    }

    /// Whether a wandering entity may step onto a tile of this kind: not onto
    /// water, mountain, village or building.
    pub fn walkable(&self) -> (r: bool)
        ensures
            r == self.spec_walkable(),
    {
        match self {
            TileKind::Water | TileKind::Mountain | TileKind::Village | TileKind::Building => false,
            _ => true,
        }
    }

    /// The kind's display color, as red, green and blue.
    pub fn color(&self) -> (r: (u8, u8, u8))
        ensures
            r == self.spec_color(),
    {
        match self {
            TileKind::Water => (0, 77, 153),
            TileKind::Grass => (0, 153, 25),
            TileKind::Forest => (0, 77, 38),
            TileKind::Hill => (255, 238, 230),
            TileKind::Mountain => (230, 255, 242),
            TileKind::Road => (153, 128, 77),
            TileKind::Village => (204, 153, 51),
            TileKind::Building => (128, 128, 128),
        }
    }

    /// The background color of a light square: every channel `c` of the
    /// display color dimmed to `c * (c / 255) / 2`, rounded down.
    pub fn faded_color(&self) -> (r: (u8, u8, u8))
        ensures
            r.0 == fade(self.spec_color().0, 510),
            r.1 == fade(self.spec_color().1, 510),
            r.2 == fade(self.spec_color().2, 510),
    {
        let (r, g, b) = self.color();
        (dim(r, 510), dim(g, 510), dim(b, 510))
    }

    /// The background color of a dark square: every channel `c` of the
    /// display color dimmed to `c * (c / 204) / 2`, rounded down.
    pub fn dark_faded_color(&self) -> (r: (u8, u8, u8))
        ensures
            r.0 == fade(self.spec_color().0, 408),
            r.1 == fade(self.spec_color().1, 408),
            r.2 == fade(self.spec_color().2, 408),
    {
        let (r, g, b) = self.color();
        (dim(r, 408), dim(g, 408), dim(b, 408))
    }
}

/// A color channel squared and divided by `divisor`, rounded down.
pub open spec fn fade(channel: u8, divisor: int) -> int {
    (channel * channel) / divisor
}

fn dim(channel: u8, divisor: u32) -> (r: u8)
    requires
        divisor >= 408,
    ensures
        r == fade(channel, divisor as int),
{
    let c: u32 = channel as u32;
    assert(c * c <= 65025) by (nonlinear_arith)
        requires
            c <= 255,
    ;
    let q: u32 = (c * c) / divisor;
    assert(q <= 255) by (nonlinear_arith)
        requires
            q == (c * c) / (divisor as int),
            c * c <= 65025,
            divisor >= 408,
    ;
    q as u8
}

/// One square of a sector's grid.
#[derive(Debug, Clone, Copy, PartialEq, Eq, Hash, Structural)]
pub struct Tile {
    pub kind: TileKind,
}

impl DeepView for Tile {
    type V = Tile;

    open spec fn deep_view(&self) -> Tile {
        *self
    }
}

impl Default for Tile {
    /// A tile of water.
    fn default() -> (r: Tile)
        ensures
            r == (Tile { kind: TileKind::Water }),
    {
        Tile { kind: TileKind::Water }
    }
}

/// The index of the first sector named `id`, or the number of sectors if
/// there is none.
pub open spec fn index_of(sectors: Seq<SectorView>, id: Seq<char>) -> int
    decreases sectors.len(),
{
    if sectors.len() == 0 {
        0
    } else if sectors[0].id == id {
        0
    } else {
        1 + index_of(sectors.drop_first(), id)
    }
}

/// Whether a sector named `id` is among `sectors`.
pub open spec fn registered(sectors: Seq<SectorView>, id: Seq<char>) -> bool {
    index_of(sectors, id) < sectors.len()
}

/// `index_of` returns the first index at which the name stands.
pub proof fn lemma_index_of(sectors: Seq<SectorView>, id: Seq<char>)
    ensures
        0 <= index_of(sectors, id) <= sectors.len(),
        registered(sectors, id) ==> sectors[index_of(sectors, id)].id == id,
        forall|j: int| 0 <= j < index_of(sectors, id) ==> (#[trigger] sectors[j]).id != id,
    decreases sectors.len(),
{
    if sectors.len() > 0 && sectors[0].id != id {
        let rest = sectors.drop_first();
        lemma_index_of(rest, id);
        assert forall|j: int| 0 <= j < index_of(sectors, id) implies (#[trigger] sectors[j]).id != id by {
            if j > 0 {
                assert(sectors[j] == rest[j - 1]);
            }
        }
    }
}

/// A sector that stands in the list is registered under its name.
pub proof fn lemma_member_registered(sectors: Seq<SectorView>, i: int)
    requires
        0 <= i < sectors.len(),
    ensures
        registered(sectors, sectors[i].id),
{
    lemma_index_of(sectors, sectors[i].id);
}

/// Whether two lists name the same sectors in the same order.
pub open spec fn same_names(a: Seq<SectorView>, b: Seq<SectorView>) -> bool {
    &&& a.len() == b.len()
    &&& forall|i: int| 0 <= i < a.len() ==> (#[trigger] a[i]).id == (#[trigger] b[i]).id
}

/// Whether two lists name the same sectors in the same order, with the same
/// neighbors and entrances.
pub open spec fn same_links(a: Seq<SectorView>, b: Seq<SectorView>) -> bool {
    &&& same_names(a, b)
    &&& forall|i: int| 0 <= i < a.len() ==> (#[trigger] a[i]).neighbors == (#[trigger] b[i]).neighbors
    &&& forall|i: int| 0 <= i < a.len() ==> (#[trigger] a[i]).entrances == (#[trigger] b[i]).entrances
}

/// Lists that name the same sectors find every name at the same index.
pub proof fn lemma_same_names_index(a: Seq<SectorView>, b: Seq<SectorView>, id: Seq<char>)
    requires
        same_names(a, b),
    ensures
        index_of(a, id) == index_of(b, id),
    decreases a.len(),
{
    if a.len() > 0 {
        assert(a[0].id == b[0].id);
        if a[0].id != id {
            let ra = a.drop_first();
            let rb = b.drop_first();
            assert forall|i: int| 0 <= i < ra.len() implies (#[trigger] ra[i]).id == (#[trigger] rb[i]).id by {
                assert(a[i + 1].id == b[i + 1].id);
            }
            lemma_same_names_index(ra, rb, id);
        }
    }
}

/// Whether every neighbor and every entrance of `sector` leads to one of
/// `sectors`.
pub open spec fn links_closed(sectors: Seq<SectorView>, sector: SectorView) -> bool {
    &&& forall|d: int|
        0 <= d < sector.neighbors.len() ==> ((#[trigger] sector.neighbors[d]) matches Some(n) ==> registered(
            sectors,
            n,
        ))
    &&& forall|k: int| 0 <= k < sector.entrances.len() ==> registered(sectors, (#[trigger] sector.entrances[k]).2)
}

/// A list of sectors is a registry when every sector is well formed, no two
/// have the same name, and every neighbor and entrance leads to a sector of
/// the list.
pub open spec fn registry_wf(sectors: Seq<SectorView>) -> bool {
    &&& forall|i: int| 0 <= i < sectors.len() ==> (#[trigger] sectors[i]).wf()
    &&& forall|i: int, j: int|
        0 <= i < sectors.len() && 0 <= j < sectors.len() && i != j ==> (#[trigger] sectors[i]).id != (
        #[trigger] sectors[j]).id
    &&& forall|i: int| 0 <= i < sectors.len() ==> links_closed(sectors, #[trigger] sectors[i])
}

/// A registry stays one when its sectors change but keep their names,
/// neighbors and entrances, and stay well formed.
pub proof fn lemma_registry_kept(a: Seq<SectorView>, b: Seq<SectorView>)
    requires
        registry_wf(a),
        same_links(a, b),
        forall|i: int| 0 <= i < b.len() ==> (#[trigger] b[i]).wf(),
    ensures
        registry_wf(b),
{
    assert forall|i: int| 0 <= i < b.len() implies links_closed(b, #[trigger] b[i]) by {
        assert(links_closed(a, a[i]));
        assert(a[i].neighbors == b[i].neighbors);
        assert(a[i].entrances == b[i].entrances);
        assert forall|d: int| 0 <= d < b[i].neighbors.len() implies ((#[trigger] b[i].neighbors[d]) matches Some(
            n,
        ) ==> registered(b, n)) by {
            if let Some(n) = b[i].neighbors[d] {
                assert(a[i].neighbors[d] == Some(n));
                lemma_same_names_index(a, b, n);
            }
        }
        assert forall|k: int| 0 <= k < b[i].entrances.len() implies registered(
            b,
            (#[trigger] b[i].entrances[k]).2,
        ) by {
            assert(registered(a, a[i].entrances[k].2));
            lemma_same_names_index(a, b, b[i].entrances[k].2);
        }
    }
    assert forall|i: int, j: int| 0 <= i < b.len() && 0 <= j < b.len() && i != j implies (#[trigger] b[i]).id != (
    #[trigger] b[j]).id by {
        assert(a[i].id == b[i].id);
        assert(a[j].id == b[j].id);
    }
}

/// The mathematical value of a map.
pub struct SectorMapView {
    pub sectors: Seq<SectorView>,
    pub baseline: Seq<SectorView>,
    pub current: int,
}

impl SectorMapView {
    /// A map is well formed when its sectors and its baseline are
    /// registries that name the same sectors, every sector has the tiles of
    /// its baseline wherever its log names no change, and the active sector
    /// is one of them.
    pub open spec fn wf(self) -> bool {
        &&& registry_wf(self.sectors)
        &&& registry_wf(self.baseline)
        &&& same_names(self.baseline, self.sectors)
        &&& forall|i: int| 0 <= i < self.sectors.len() ==> (#[trigger] self.sectors[i]).follows(self.baseline[i])
        &&& 0 <= self.current < self.sectors.len()
    }

    /// The active sector.
    pub open spec fn sector(self) -> SectorView {
        self.sectors[self.current]
    }

    /// The map with the active sector replaced.
    pub open spec fn with_sector(self, sector: SectorView) -> SectorMapView {
        SectorMapView { sectors: self.sectors.update(self.current, sector), ..self }
    }
}

/// Setting a tile of the active sector keeps a map well formed.
pub proof fn lemma_tile_set_kept(map: SectorMapView, x: u32, y: u32, tile: Tile)
    requires
        map.wf(),
        x < WIDTH,
        y < HEIGHT,
    ensures
        map.with_sector(map.sector().with_tile(x, y, tile)).wf(),
{
    let after = map.with_sector(map.sector().with_tile(x, y, tile));
    assert(map.sector().wf());
    assert(map.sector().follows(map.baseline[map.current]));
    map.sector().lemma_with_tile(x, y, tile, map.baseline[map.current]);
    lemma_registry_kept(map.sectors, after.sectors);
    assert forall|i: int| 0 <= i < after.sectors.len() implies (#[trigger] after.sectors[i]).follows(
        after.baseline[i],
    ) by {
        if i != map.current {
            assert(map.sectors[i].follows(map.baseline[i]));
        }
    }
}

/// The registry of all sectors, with the sector the player is in.
#[derive(Debug)]
pub struct SectorMap {
    /// The sectors as the session has changed them.
    pub sectors: Vec<Sector>,
    /// The sectors as they were when the map was made.
    pub baseline: Vec<Sector>,
    /// The index of the active sector.
    pub current: usize,
}

impl View for SectorMap {
    type V = SectorMapView;

    open spec fn view(&self) -> SectorMapView {
        SectorMapView {
            sectors: self.sectors.deep_view(),
            baseline: self.baseline.deep_view(),
            current: self.current as int,
        }
    }
}

/// Copies a list of sectors.
pub fn clone_sectors(sectors: &Vec<Sector>) -> (r: Vec<Sector>)
    ensures
        r.deep_view() == sectors.deep_view(),
{
    let mut r: Vec<Sector> = Vec::new();
    let mut i: usize = 0;
    while i < sectors.len()
        invariant
            i <= sectors.len(),
            r.len() == i,
            forall|j: int| 0 <= j < i ==> r[j]@ == sectors[j]@,
        decreases sectors.len() - i,
    {
        r.push(sectors[i].clone());
        i = i + 1;
    }
    proof {
        assert(r.deep_view() =~= sectors.deep_view());
    }
    r
}

/// The index of the sector named `id` in `sectors`.
pub fn find_sector(sectors: &Vec<Sector>, id: &str) -> (r: Option<usize>)
    ensures
        r is Some <==> registered(sectors.deep_view(), id@),
        r is Some ==> r->0 == index_of(sectors.deep_view(), id@),
{
    let name = id.to_owned();
    let mut i: usize = 0;
    proof {
        lemma_index_of(sectors.deep_view(), id@);
    }
    while i < sectors.len()
        invariant
            i <= sectors.len(),
            name@ == id@,
            forall|j: int| 0 <= j < i ==> (#[trigger] sectors.deep_view()[j]).id != id@,
        decreases sectors.len() - i,
    {
        if sectors[i].id == name {
            proof {
                lemma_index_of(sectors.deep_view(), id@);
                assert(sectors.deep_view()[i as int].id == id@);
            }
            return Some(i);
        }
        assert(sectors.deep_view()[i as int].id != id@);
        i = i + 1;
    }
    proof {
        lemma_index_of(sectors.deep_view(), id@);
    }
    None
}

/// Whether every neighbor and every entrance of the sector at `at` leads to
/// one of `sectors`.
fn check_links(sectors: &Vec<Sector>, at: usize) -> (r: bool)
    requires
        at < sectors.len(),
    ensures
        r == links_closed(sectors.deep_view(), sectors.deep_view()[at as int]),
{
    let sector = &sectors[at];
    let ghost all = sectors.deep_view();
    assert(sector@ == all[at as int]);
    assert(sector@.neighbors.len() == 4);
    let mut d: usize = 0;
    while d < 4
        invariant
            d <= 4,
            at < sectors.len(),
            all == sectors.deep_view(),
            sector@ == all[at as int],
            sector@.neighbors.len() == 4,
            forall|j: int|
                0 <= j < d ==> ((#[trigger] sector@.neighbors[j]) matches Some(n) ==> registered(all, n)),
        decreases 4 - d,
    {
        match &sector.neighbors[d] {
            Some(name) => {
                assert(sector@.neighbors[d as int] == Some(name@));
                if find_sector(sectors, name.as_str()).is_none() {
                    return false;
                }
            },
            None => {
                assert(sector@.neighbors[d as int] is None);
            },
        }
        d = d + 1;
    }
    let mut k: usize = 0;
    while k < sector.entrances.len()
        invariant
            k <= sector.entrances.len(),
            at < sectors.len(),
            all == sectors.deep_view(),
            sector@ == all[at as int],
            sector@.neighbors.len() == 4,
            forall|j: int|
                0 <= j < 4 ==> ((#[trigger] sector@.neighbors[j]) matches Some(n) ==> registered(all, n)),
            forall|j: int| 0 <= j < k ==> registered(all, (#[trigger] sector@.entrances[j]).2),
        decreases sector.entrances.len() - k,
    {
        assert(sector@.entrances[k as int].2 == sector.entrances[k as int].2@);
        if find_sector(sectors, sector.entrances[k].2.as_str()).is_none() {
            return false;
        }
        k = k + 1;
    }
    true
}

/// Whether `sectors` is a registry: see `registry_wf`.
pub fn check_registry(sectors: &Vec<Sector>) -> (r: bool)
    ensures
        r == registry_wf(sectors.deep_view()),
{
    let ghost all = sectors.deep_view();
    let mut i: usize = 0;
    while i < sectors.len()
        invariant
            i <= sectors.len(),
            all == sectors.deep_view(),
            forall|j: int| 0 <= j < i ==> (#[trigger] all[j]).wf(),
            forall|j: int| 0 <= j < i ==> links_closed(all, #[trigger] all[j]),
            forall|a: int, b: int| 0 <= a < i && 0 <= b < a ==> (#[trigger] all[a]).id != (#[trigger] all[b]).id,
        decreases sectors.len() - i,
    {
        assert(sectors[i as int]@ == all[i as int]);
        if !sectors[i].check() {
            return false;
        }
        if !check_links(sectors, i) {
            return false;
        }
        let mut b: usize = 0;
        while b < i
            invariant
                b <= i,
                i < sectors.len(),
                all == sectors.deep_view(),
                forall|c: int| 0 <= c < b ==> (#[trigger] all[i as int]).id != (#[trigger] all[c]).id,
            decreases i - b,
        {
            if sectors[i].id == sectors[b].id {
                assert(all[i as int].id == all[b as int].id);
                return false;
            }
            assert(all[i as int].id != all[b as int].id);
            b = b + 1;
        }
        i = i + 1;
    }
    proof {
        assert forall|a: int, b: int| 0 <= a < all.len() && 0 <= b < all.len() && a != b implies (#[trigger] all[a]).id
            != (#[trigger] all[b]).id by {
            if b < a {
                assert(all[a].id != all[b].id);
            } else {
                assert(all[b].id != all[a].id);
            }
        }
    }
    true
}

impl SectorMap {
    /// A map over `sectors` whose active sector is `start`, with the
    /// entities of that sector.
    pub fn new(sectors: Vec<Sector>, start: &str) -> (r: (Vec<Entity>, SectorMap))
        requires
            registry_wf(sectors.deep_view()),
            registered(sectors.deep_view(), start@),
        ensures
            r.1@ == (SectorMapView {
                sectors: sectors.deep_view(),
                baseline: sectors.deep_view(),
                current: index_of(sectors.deep_view(), start@),
            }),
            r.1@.wf(),
            r.0.deep_view() == r.1@.sector().entities,
    {
        let current = find_sector(&sectors, start).unwrap();
        let baseline = clone_sectors(&sectors);
        let entities = clone_entities(sectors[current].entities());
        (entities, SectorMap { sectors, baseline, current })
    }

    /// Whether the map is well formed.
    pub fn check(&self) -> (r: bool)
        ensures
            r == self@.wf(),
    {
        if !check_registry(&self.sectors) || !check_registry(&self.baseline) {
            return false;
        }
        proof {
            assert(self.sectors.deep_view().len() == self.sectors.len());
            assert(self.baseline.deep_view().len() == self.baseline.len());
        }
        if self.sectors.len() != self.baseline.len() {
            return false;
        }
        let mut i: usize = 0;
        while i < self.sectors.len()
            invariant
                i <= self.sectors.len(),
                self.sectors.len() == self.baseline.len(),
                registry_wf(self@.sectors),
                forall|j: int| 0 <= j < i ==> (#[trigger] self@.baseline[j]).id == (#[trigger] self@.sectors[j]).id,
                forall|j: int| 0 <= j < i ==> (#[trigger] self@.sectors[j]).follows(self@.baseline[j]),
            decreases self.sectors.len() - i,
        {
            proof {
                assert(self@.sectors[i as int] == self.sectors[i as int]@);
                assert(self@.baseline[i as int] == self.baseline[i as int]@);
                assert(self@.sectors[i as int].wf());
            }
            if self.sectors[i].id != self.baseline[i].id {
                assert(self@.baseline[i as int].id != self@.sectors[i as int].id);
                return false;
            }
            if !self.sectors[i].follows(&self.baseline[i]) {
                assert(!self@.sectors[i as int].follows(self@.baseline[i as int]));
                return false;
            }
            i = i + 1;
        }
        self.current < self.sectors.len()
    }

    /// Makes the sector named `id` the active one and returns its entities.
    pub fn load(&mut self, id: &str) -> (r: Vec<Entity>)
        requires
            registered(old(self)@.sectors, id@),
        ensures
            final(self)@ == (SectorMapView { current: index_of(old(self)@.sectors, id@), ..old(self)@ }),
            final(self)@.sector().id == id@,
            r.deep_view() == final(self)@.sector().entities,
            old(self)@.wf() ==> final(self)@.wf(),
    {
        proof {
            lemma_index_of(self@.sectors, id@);
        }
        self.current = find_sector(&self.sectors, id).unwrap();
        clone_entities(self.sectors[self.current].entities())
    }

    /// Replaces the entities of the sector named `id`.
    pub fn save_entities(&mut self, id: &str, entities: Vec<Entity>)
        requires
            registered(old(self)@.sectors, id@),
        ensures
            final(self)@ == (SectorMapView {
                sectors: old(self)@.sectors.update(
                    index_of(old(self)@.sectors, id@),
                    SectorView {
                        entities: entities.deep_view(),
                        ..old(self)@.sectors[index_of(old(self)@.sectors, id@)]
                    },
                ),
                ..old(self)@
            }),
            old(self)@.wf() && all_wf(entities.deep_view()) ==> final(self)@.wf(),
    {
        proof {
            lemma_index_of(self@.sectors, id@);
        }
        let i = find_sector(&self.sectors, id).unwrap();
        self.sectors[i].save_entities(entities);
        proof {
            assert(self.sectors.deep_view() =~= old(self).sectors.deep_view().update(
                i as int,
                SectorView { entities: entities.deep_view(), ..old(self)@.sectors[i as int] },
            ));
            if old(self)@.wf() && all_wf(entities.deep_view()) {
                assert(old(self)@.sectors[i as int].wf());
                lemma_registry_kept(old(self)@.sectors, self@.sectors);
                assert forall|j: int| 0 <= j < self@.sectors.len() implies (#[trigger] self@.sectors[j]).follows(
                    self@.baseline[j],
                ) by {
                    assert(old(self)@.sectors[j].follows(old(self)@.baseline[j]));
                    if j == i {
                        assert forall|x: u32, y: u32|
                            x < WIDTH && y < HEIGHT && !#[trigger] self@.sectors[j].logged(x, y)
                            implies self@.sectors[j].tiles[y as int][x as int]
                            == self@.baseline[j].tiles[y as int][x as int] by {
                            if old(self)@.sectors[j].logged(x, y) {
                                let k = choose|k: int|
                                    0 <= k < old(self)@.sectors[j].changed.len() && #[trigger] old(self)@.sectors[j].changed[k] == (x, y);
                                assert(self@.sectors[j].changed[k] == (x, y));
                            }
                        }
                    }
                }
            }
        }
    }

    /// The active sector.
    pub fn sector(&self) -> (r: &Sector)
        requires
            self.current < self.sectors.len(),
        ensures
            r@ == self@.sector(),
    {
        &self.sectors[self.current]
    }

    /// The active sector, to be changed in place.
    pub fn sector_mut(&mut self) -> (r: &mut Sector)
        requires
            old(self).current < old(self).sectors.len(),
        ensures
            *r == old(self).sectors[old(self).current as int],
            final(self).sectors@ == old(self).sectors@.update(old(self).current as int, *final(r)),
            final(self).baseline == old(self).baseline,
            final(self).current == old(self).current,
    {
        let i = self.current;
        &mut self.sectors[i]
    }

    /// The grid of the active sector, row by row.
    pub fn tiles(&self) -> (r: &[[crate::map::Tile; WIDTH]; HEIGHT])
        requires
            self.current < self.sectors.len(),
        ensures
            crate::sector::grid_view(*r) == self@.sector().tiles,
    {
        self.sector().tiles()
    }

    /// The tile at `(x, y)` of the active sector, or `None` if the
    /// coordinates lie outside the grid.
    pub fn get(&self, x: u32, y: u32) -> (r: Option<Tile>)
        requires
            self.current < self.sectors.len(),
        ensures
            r == self@.sector().tile(x, y),
            r is Some <==> x < WIDTH && y < HEIGHT,
    {
        self.sector().get(x, y)
    }

    /// Sets the tile at `(x, y)` of the active sector.
    pub fn set(&mut self, x: u32, y: u32, tile: Tile)
        requires
            old(self).current < old(self).sectors.len(),
            x < WIDTH,
            y < HEIGHT,
        ensures
            final(self)@ == old(self)@.with_sector(old(self)@.sector().with_tile(x, y, tile)),
            old(self)@.wf() ==> final(self)@.wf(),
    {
        let i = self.current;
        self.sectors[i].set(x, y, tile);
        proof {
            assert(self.sectors.deep_view() =~= old(self).sectors.deep_view().update(
                i as int,
                old(self)@.sector().with_tile(x, y, tile),
            ));
            if old(self)@.wf() {
                lemma_tile_set_kept(old(self)@, x, y, tile);
            }
        }
    }
}

} // verus!
