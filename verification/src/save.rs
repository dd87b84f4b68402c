//! What is saved of a session and how a session is restored from it.
//!
//! A save holds the player, the name of the active sector, for every sector
//! the tiles that were changed, and the ledger of the entities that were
//! removed for good. Restoring starts from the map's baseline, so that the
//! restored state depends on nothing that happened after the save was made.

use vstd::prelude::*;
use crate::entity::{EntityView, all_wf, lemma_remove_wf};
use crate::map::{Tile, SectorMapView, clone_sectors, find_sector, index_of, registered, registry_wf,
    same_links, same_names, lemma_index_of, lemma_registry_kept, lemma_same_names_index};
use crate::player::{Player, PlayerView};
use crate::sector::{clone_entities, Sector, SectorView, HEIGHT, WIDTH, without_id, index_of_id,
    lemma_index_of_id};
use crate::world::{World, WorldView};

verus! {

/// The mathematical value of a save.
pub struct SaveView {
    pub player: PlayerView,
    pub current_sector: Seq<char>,
    pub tile_changes: Seq<(Seq<char>, Seq<(u32, u32, Tile)>)>,
    pub despawned: Seq<(Seq<char>, u32)>,
}

/// The saved state of a session.
#[derive(Debug)]
pub struct SaveData {
    pub player: Player,
    /// The name of the active sector.
    pub current_sector: String,
    /// For each sector, by name, the coordinates of the tiles that were set
    /// and the tile that each of them holds.
    pub tile_changes: Vec<(String, Vec<(u32, u32, Tile)>)>,
    /// The sector and identifier of every entity that was removed for good.
    pub despawned: Vec<(String, u32)>,
}

impl View for SaveData {
    type V = SaveView;

    open spec fn view(&self) -> SaveView {
        SaveView {
            player: self.player@,
            current_sector: self.current_sector@,
            tile_changes: self.tile_changes.deep_view(),
            despawned: self.despawned.deep_view(),
        }
    }
}

/// The changes of a sector: for every entry of its log, in order, the
/// coordinates and the tile that the sector now holds there.
pub open spec fn deltas(sector: SectorView) -> Seq<(u32, u32, Tile)> {
    Seq::new(
        sector.changed.len(),
        |k: int|
            (
                sector.changed[k].0,
                sector.changed[k].1,
                sector.tiles[sector.changed[k].1 as int][sector.changed[k].0 as int],
            ),
    )
}

/// The changes of every sector, by name, in the order of the registry.
pub open spec fn all_deltas(sectors: Seq<SectorView>) -> Seq<(Seq<char>, Seq<(u32, u32, Tile)>)> {
    Seq::new(sectors.len(), |i: int| (sectors[i].id, deltas(sectors[i])))
}

/// What is saved of a world.
pub open spec fn exported(world: WorldView) -> SaveView {
    SaveView {
        player: world.player,
        current_sector: world.map.sector().id,
        tile_changes: all_deltas(world.map.sectors),
        despawned: world.despawned,
    }
}

/// Whether every change of a list lies inside the grid.
pub open spec fn in_grid(changes: Seq<(u32, u32, Tile)>) -> bool {
    forall|k: int| 0 <= k < changes.len() ==> (#[trigger] changes[k]).0 < WIDTH && changes[k].1 < HEIGHT
}

/// A sector after a list of changes was made to it, in order.
pub open spec fn patched(sector: SectorView, changes: Seq<(u32, u32, Tile)>) -> SectorView
    decreases changes.len(),
{
    if changes.len() == 0 {
        sector
    } else {
        patched(sector, changes.drop_last()).with_tile(changes.last().0, changes.last().1, changes.last().2)
    }
}

/// The sectors after the changes of each named sector were made; changes
/// for a name that is not registered are passed over.
pub open spec fn patched_all(sectors: Seq<SectorView>, entries: Seq<(Seq<char>, Seq<(u32, u32, Tile)>)>) -> Seq<
    SectorView,
>
    decreases entries.len(),
{
    if entries.len() == 0 {
        sectors
    } else {
        let before = patched_all(sectors, entries.drop_last());
        let i = index_of(before, entries.last().0);
        if i < before.len() {
            before.update(i, patched(before[i], entries.last().1))
        } else {
            before
        }
    }
}

/// The sectors after every entity of the ledger was removed from its
/// sector; entries for a name that is not registered are passed over.
pub open spec fn purged(sectors: Seq<SectorView>, ledger: Seq<(Seq<char>, u32)>) -> Seq<SectorView>
    decreases ledger.len(),
{
    if ledger.len() == 0 {
        sectors
    } else {
        let before = purged(sectors, ledger.drop_last());
        let i = index_of(before, ledger.last().0);
        if i < before.len() {
            before.update(i, SectorView { entities: without_id(before[i].entities, ledger.last().1), ..before[i] })
        } else {
            before
        }
    }
}

/// The entries of a ledger whose sector is registered, in order.
pub open spec fn known(sectors: Seq<SectorView>, ledger: Seq<(Seq<char>, u32)>) -> Seq<(Seq<char>, u32)>
    decreases ledger.len(),
{
    if ledger.len() == 0 {
        Seq::empty()
    } else if registered(sectors, ledger.last().0) {
        known(sectors, ledger.drop_last()).push(ledger.last())
    } else {
        known(sectors, ledger.drop_last())
    }
}

impl SaveView {
    /// Whether a session over `sectors` can be restored from the save: the
    /// active sector is registered, the player stands inside the grid, and
    /// every change lies inside the grid.
    pub open spec fn fits(self, sectors: Seq<SectorView>) -> bool {
        &&& registered(sectors, self.current_sector)
        &&& self.player.x < WIDTH
        &&& self.player.y < HEIGHT
        &&& forall|i: int| 0 <= i < self.tile_changes.len() ==> in_grid((#[trigger] self.tile_changes[i]).1)
    }
}

impl WorldView {
    /// The world restored from a save. The sectors are those of the
    /// baseline with the saved changes made and the entities of the ledger
    /// removed; the active sector, the player and the ledger are those of
    /// the save; the world's entities are those of the active sector. The
    /// turn counter and the difficulty stay.
    pub open spec fn restored(self, data: SaveView) -> WorldView {
        let sectors = purged(patched_all(self.map.baseline, data.tile_changes), data.despawned);
        let current = index_of(sectors, data.current_sector);
        WorldView {
            map: SectorMapView { sectors, baseline: self.map.baseline, current },
            player: data.player,
            entities: sectors[current].entities,
            despawned: known(self.map.baseline, data.despawned),
            turn: self.turn,
            difficulty: self.difficulty,
        }
    }
}

/// Changes inside the grid keep a sector well formed, named and linked as
/// it was, and following a baseline that it followed.
pub proof fn lemma_patched(sector: SectorView, changes: Seq<(u32, u32, Tile)>, baseline: SectorView)
    requires
        sector.wf(),
        in_grid(changes),
    ensures
        patched(sector, changes).wf(),
        patched(sector, changes).id == sector.id,
        patched(sector, changes).neighbors == sector.neighbors,
        patched(sector, changes).entrances == sector.entrances,
        patched(sector, changes).entities == sector.entities,
        sector.follows(baseline) ==> patched(sector, changes).follows(baseline),
    decreases changes.len(),
{
    if changes.len() > 0 {
        let front = changes.drop_last();
        assert forall|k: int| 0 <= k < front.len() implies (#[trigger] front[k]).0 < WIDTH && front[k].1 < HEIGHT by {
            assert(front[k] == changes[k]);
        }
        lemma_patched(sector, front, baseline);
        let last = changes[changes.len() - 1];
        patched(sector, front).lemma_with_tile(last.0, last.1, last.2, baseline);
    }
}

/// Whether `after` is `before` with sectors changed in ways that keep a
/// map over `baseline` well formed.
pub open spec fn renewed(before: Seq<SectorView>, after: Seq<SectorView>, baseline: Seq<SectorView>) -> bool {
    &&& same_links(before, after)
    &&& forall|i: int| 0 <= i < after.len() ==> (#[trigger] after[i]).wf()
    &&& forall|i: int|
        0 <= i < after.len() && before[i].follows(baseline[i]) ==> (#[trigger] after[i]).follows(baseline[i])
}

/// Making the saved changes keeps the sectors a registry that names and
/// links the same sectors and follows the baseline.
pub proof fn lemma_patched_all(
    sectors: Seq<SectorView>,
    entries: Seq<(Seq<char>, Seq<(u32, u32, Tile)>)>,
    baseline: Seq<SectorView>,
)
    requires
        forall|i: int| 0 <= i < sectors.len() ==> (#[trigger] sectors[i]).wf(),
        forall|i: int| 0 <= i < entries.len() ==> in_grid((#[trigger] entries[i]).1),
        baseline.len() == sectors.len(),
    ensures
        renewed(sectors, patched_all(sectors, entries), baseline),
        forall|i: int|
            0 <= i < sectors.len() ==> (#[trigger] patched_all(sectors, entries)[i]).entities == sectors[i].entities,
    decreases entries.len(),
{
    if entries.len() > 0 {
        let front = entries.drop_last();
        assert forall|i: int| 0 <= i < front.len() implies in_grid((#[trigger] front[i]).1) by {
            assert(front[i] == entries[i]);
        }
        lemma_patched_all(sectors, front, baseline);
        let before = patched_all(sectors, front);
        let last = entries[entries.len() - 1];
        let i = index_of(before, last.0);
        lemma_index_of(before, last.0);
        if i < before.len() {
            assert(before[i].wf());
            lemma_patched(before[i], last.1, baseline[i]);
        }
    }
}

/// An entity list without one of its entities is well formed if it was.
pub proof fn lemma_without_id_wf(entities: Seq<EntityView>, id: u32)
    requires
        all_wf(entities),
    ensures
        all_wf(without_id(entities, id)),
        without_id(entities, id).len() <= entities.len(),
{
    lemma_index_of_id(entities, id);
    let k = index_of_id(entities, id);
    if k < entities.len() {
        lemma_remove_wf(entities, k);
    }
}

/// Removing the entities of a ledger keeps the sectors a registry that
/// names and links the same sectors and follows the baseline.
pub proof fn lemma_purged(sectors: Seq<SectorView>, ledger: Seq<(Seq<char>, u32)>, baseline: Seq<SectorView>)
    requires
        forall|i: int| 0 <= i < sectors.len() ==> (#[trigger] sectors[i]).wf(),
        baseline.len() == sectors.len(),
    ensures
        renewed(sectors, purged(sectors, ledger), baseline),
        forall|i: int|
            0 <= i < sectors.len() ==> (#[trigger] purged(sectors, ledger)[i]).tiles == sectors[i].tiles && purged(
                sectors,
                ledger,
            )[i].changed == sectors[i].changed,
    decreases ledger.len(),
{
    if ledger.len() > 0 {
        let front = ledger.drop_last();
        lemma_purged(sectors, front, baseline);
        let before = purged(sectors, front);
        let last = ledger[ledger.len() - 1];
        let i = index_of(before, last.0);
        lemma_index_of(before, last.0);
        if i < before.len() {
            assert(before[i].wf());
            lemma_without_id_wf(before[i].entities, last.1);
            let after = purged(sectors, ledger);
            assert forall|j: int| 0 <= j < after.len() && sectors[j].follows(baseline[j]) implies (
            #[trigger] after[j]).follows(baseline[j]) by {
                assert(before[j].follows(baseline[j]));
                if j == i {
                    assert forall|x: u32, y: u32|
                        x < WIDTH && y < HEIGHT && !#[trigger] after[j].logged(x, y) implies after[j].tiles[y as int][x as int]
                        == baseline[j].tiles[y as int][x as int] by {
                        if before[j].logged(x, y) {
                            let k = choose|k: int|
                                0 <= k < before[j].changed.len() && #[trigger] before[j].changed[k] == (x, y);
                            assert(after[j].changed[k] == (x, y));
                        }
                    }
                }
            }
        }
    }
}

/// Every known entry of a ledger names a sector.
pub proof fn lemma_known_listed(sectors: Seq<SectorView>, ledger: Seq<(Seq<char>, u32)>)
    ensures
        crate::world::listed(sectors, known(sectors, ledger)),
        crate::world::listed(sectors, ledger) ==> known(sectors, ledger) == ledger,
    decreases ledger.len(),
{
    if ledger.len() > 0 {
        let front = ledger.drop_last();
        lemma_known_listed(sectors, front);
        let before = known(sectors, front);
        let after = known(sectors, ledger);
        assert forall|k: int| 0 <= k < after.len() implies registered(sectors, (#[trigger] after[k]).0) by {
            if k < before.len() {
                assert(after[k] == before[k]);
            }
        }
        if crate::world::listed(sectors, ledger) {
            assert forall|k: int| 0 <= k < front.len() implies registered(sectors, (#[trigger] front[k]).0) by {
                assert(front[k] == ledger[k]);
            }
            assert(registered(sectors, ledger[ledger.len() - 1].0));
            assert(front.push(ledger.last()) =~= ledger);
        }
    }
}

/// A world restored from a save that fits is well formed.
pub proof fn lemma_restored_wf(world: WorldView, data: SaveView)
    requires
        world.wf(),
        data.fits(world.map.baseline),
    ensures
        world.restored(data).wf(),
{
    let baseline = world.map.baseline;
    let patched = patched_all(baseline, data.tile_changes);
    let sectors = purged(patched, data.despawned);
    lemma_known_listed(baseline, data.despawned);
    lemma_patched_all(baseline, data.tile_changes, baseline);
    lemma_purged(patched, data.despawned, baseline);
    assert(same_links(baseline, sectors)) by {
        assert forall|i: int| 0 <= i < baseline.len() implies (#[trigger] baseline[i]).id == (#[trigger] sectors[i]).id by {
            assert(baseline[i].id == patched[i].id);
            assert(patched[i].id == sectors[i].id);
        }
        assert forall|i: int| 0 <= i < baseline.len() implies (#[trigger] baseline[i]).neighbors == (
        #[trigger] sectors[i]).neighbors by {
            assert(baseline[i].neighbors == patched[i].neighbors);
            assert(patched[i].neighbors == sectors[i].neighbors);
        }
        assert forall|i: int| 0 <= i < baseline.len() implies (#[trigger] baseline[i]).entrances == (
        #[trigger] sectors[i]).entrances by {
            assert(baseline[i].entrances == patched[i].entrances);
            assert(patched[i].entrances == sectors[i].entrances);
        }
    }
    lemma_registry_kept(baseline, sectors);
    lemma_same_names_index(baseline, sectors, data.current_sector);
    lemma_index_of(sectors, data.current_sector);
    let current = index_of(sectors, data.current_sector);
    assert(sectors[current].wf());
    assert forall|i: int| 0 <= i < sectors.len() implies (#[trigger] sectors[i]).follows(baseline[i]) by {
        assert(baseline[i].follows(baseline[i]));
        assert(patched[i].follows(baseline[i]));
    }
}

/// Patching a baseline with the changes of a sector that follows it gives
/// the tiles of that sector.
pub proof fn lemma_patched_tiles(baseline: SectorView, sector: SectorView)
    requires
        baseline.wf(),
        sector.wf(),
        sector.follows(baseline),
    ensures
        patched(baseline, deltas(sector)).tiles == sector.tiles,
        in_grid(deltas(sector)),
{
    let all = deltas(sector);
    assert(in_grid(all)) by {
        assert forall|k: int| 0 <= k < all.len() implies (#[trigger] all[k]).0 < WIDTH && all[k].1 < HEIGHT by {
            assert(sector.changed[k].0 < WIDTH);
        }
    }
    lemma_patched_prefix(baseline, sector, all.len() as int);
    assert(all.take(all.len() as int) =~= all);
    lemma_patched(baseline, all, baseline);
    let after = patched(baseline, all);
    assert forall|y: int| 0 <= y < HEIGHT implies #[trigger] after.tiles[y] == sector.tiles[y] by {
        assert(after.tiles[y].len() == WIDTH);
        assert(sector.tiles[y].len() == WIDTH);
        assert forall|x: int| 0 <= x < WIDTH implies after.tiles[y][x] == sector.tiles[y][x] by {
            let xx = x as u32;
            let yy = y as u32;
            if sector.logged(xx, yy) {
                let j = choose|j: int| 0 <= j < sector.changed.len() && #[trigger] sector.changed[j] == (xx, yy);
                assert(0 <= j < all.len());
            } else {
                assert(sector.tiles[yy as int][xx as int] == baseline.tiles[yy as int][xx as int]);
            }
        }
        assert(after.tiles[y] =~= sector.tiles[y]);
    }
    assert(after.tiles =~= sector.tiles);
}

/// After the first `n` changes of a sector were made to its baseline, every
/// tile that one of them names is as in the sector, and every other tile is
/// as in the baseline.
proof fn lemma_patched_prefix(baseline: SectorView, sector: SectorView, n: int)
    requires
        baseline.wf(),
        sector.wf(),
        0 <= n <= sector.changed.len(),
    ensures
        forall|x: u32, y: u32|
            x < WIDTH && y < HEIGHT ==> #[trigger] patched(baseline, deltas(sector).take(n)).tiles[y as int][x as int]
                == (if exists|j: int| 0 <= j < n && #[trigger] sector.changed[j] == (x, y) {
                sector.tiles[y as int][x as int]
            } else {
                baseline.tiles[y as int][x as int]
            }),
        patched(baseline, deltas(sector).take(n)).wf(),
    decreases n,
{
    let all = deltas(sector);
    if n == 0 {
        assert(all.take(0) =~= Seq::empty());
    } else {
        lemma_patched_prefix(baseline, sector, n - 1);
        assert(all.take(n).drop_last() =~= all.take(n - 1));
        let last = all.take(n).last();
        assert(last == all[n - 1]);
        assert(sector.changed[n - 1].0 < WIDTH && sector.changed[n - 1].1 < HEIGHT);
        let before = patched(baseline, all.take(n - 1));
        let after = patched(baseline, all.take(n));
        assert(after == before.with_tile(last.0, last.1, last.2));
        before.lemma_with_tile(last.0, last.1, last.2, baseline);
        assert forall|x: u32, y: u32| x < WIDTH && y < HEIGHT implies #[trigger] after.tiles[y as int][x as int] == (
        if exists|j: int| 0 <= j < n && #[trigger] sector.changed[j] == (x, y) {
            sector.tiles[y as int][x as int]
        } else {
            baseline.tiles[y as int][x as int]
        }) by {
            assert(before.tiles[y as int].len() == WIDTH);
            if x == last.0 && y == last.1 {
                assert(sector.changed[n - 1] == (x, y));
            } else {
                assert(after.tiles[y as int][x as int] == before.tiles[y as int][x as int]);
                if exists|j: int| 0 <= j < n && #[trigger] sector.changed[j] == (x, y) {
                    let j = choose|j: int| 0 <= j < n && #[trigger] sector.changed[j] == (x, y);
                    assert(j != n - 1);
                    assert(0 <= j < n - 1 && sector.changed[j] == (x, y));
                } else {
                    assert(!(exists|j: int| 0 <= j < n - 1 && #[trigger] sector.changed[j] == (x, y))) by {
                        if exists|j: int| 0 <= j < n - 1 && #[trigger] sector.changed[j] == (x, y) {
                            let j = choose|j: int| 0 <= j < n - 1 && #[trigger] sector.changed[j] == (x, y);
                            assert(0 <= j < n && sector.changed[j] == (x, y));
                        }
                    }
                }
            }
        }
    }
}

/// After the changes of the first `n` sectors of a map were made to its
/// baseline, each of these sectors has its patched baseline in its place,
/// and the others still have their baseline.
proof fn lemma_patched_all_prefix(map: SectorMapView, n: int)
    requires
        map.wf(),
        0 <= n <= map.sectors.len(),
    ensures
        patched_all(map.baseline, all_deltas(map.sectors).take(n)).len() == map.sectors.len(),
        forall|i: int|
            0 <= i < map.sectors.len() ==> #[trigger] patched_all(map.baseline, all_deltas(map.sectors).take(n))[i]
                == (if i < n {
                patched(map.baseline[i], deltas(map.sectors[i]))
            } else {
                map.baseline[i]
            }),
    decreases n,
{
    let entries = all_deltas(map.sectors);
    if n == 0 {
        assert(entries.take(0) =~= Seq::empty());
    } else {
        lemma_patched_all_prefix(map, n - 1);
        assert(entries.take(n).drop_last() =~= entries.take(n - 1));
        let last = entries.take(n).last();
        assert(last == entries[n - 1]);
        let before = patched_all(map.baseline, entries.take(n - 1));
        assert(same_names(map.baseline, before)) by {
            assert forall|i: int| 0 <= i < map.baseline.len() implies (#[trigger] map.baseline[i]).id == (
            #[trigger] before[i]).id by {
                if i < n - 1 {
                    assert(map.baseline[i].wf());
                    assert(map.sectors[i].wf());
                    assert(map.sectors[i].follows(map.baseline[i]));
                    lemma_patched_tiles(map.baseline[i], map.sectors[i]);
                    lemma_patched(map.baseline[i], deltas(map.sectors[i]), map.baseline[i]);
                }
            }
        }
        lemma_same_names_index(map.baseline, before, last.0);
        lemma_same_names_index(map.baseline, map.sectors, last.0);
        lemma_index_of(map.sectors, last.0);
        assert(index_of(map.sectors, last.0) == n - 1) by {
            if index_of(map.sectors, last.0) != n - 1 {
                assert(map.sectors[index_of(map.sectors, last.0)].id == map.sectors[n - 1].id);
            }
        }
    }
}

/// Saving a world and restoring it at once gives back the player, the
/// active sector, the ledger and every tile of every sector.
pub proof fn lemma_round_trip(world: WorldView)
    requires
        world.wf(),
    ensures
        exported(world).fits(world.map.baseline),
        world.restored(exported(world)).player == world.player,
        world.restored(exported(world)).map.current == world.map.current,
        world.restored(exported(world)).despawned == world.despawned,
        world.restored(exported(world)).map.sectors.len() == world.map.sectors.len(),
        forall|i: int|
            0 <= i < world.map.sectors.len() ==> (#[trigger] world.restored(exported(world)).map.sectors[i]).tiles
                == world.map.sectors[i].tiles,
{
    let map = world.map;
    let data = exported(world);
    let baseline = map.baseline;
    let n = map.sectors.len() as int;
    crate::map::lemma_member_registered(map.sectors, map.current);
    lemma_same_names_index(baseline, map.sectors, data.current_sector);
    assert forall|i: int| 0 <= i < data.tile_changes.len() implies in_grid((#[trigger] data.tile_changes[i]).1) by {
        assert(map.sectors[i].wf());
        assert(map.baseline[i].wf());
        assert(map.sectors[i].follows(map.baseline[i]));
        lemma_patched_tiles(map.baseline[i], map.sectors[i]);
    }
    lemma_patched_all_prefix(map, n);
    assert(all_deltas(map.sectors).take(n) =~= all_deltas(map.sectors));
    let patched_sectors = patched_all(baseline, data.tile_changes);
    lemma_patched_all(baseline, data.tile_changes, baseline);
    lemma_purged(patched_sectors, data.despawned, baseline);
    lemma_known_listed(baseline, data.despawned);
    let sectors = purged(patched_sectors, data.despawned);
    assert(same_names(baseline, sectors)) by {
        assert forall|i: int| 0 <= i < baseline.len() implies (#[trigger] baseline[i]).id == (#[trigger] sectors[i]).id by {
            assert(baseline[i].id == patched_sectors[i].id);
            assert(patched_sectors[i].id == sectors[i].id);
        }
    }
    lemma_same_names_index(baseline, sectors, data.current_sector);
    lemma_index_of(map.sectors, data.current_sector);
    assert(index_of(map.sectors, data.current_sector) == map.current) by {
        if index_of(map.sectors, data.current_sector) != map.current {
            assert(map.sectors[index_of(map.sectors, data.current_sector)].id == map.sectors[map.current].id);
        }
    }
    assert forall|i: int| 0 <= i < map.sectors.len() implies (#[trigger] world.restored(data).map.sectors[i]).tiles
        == map.sectors[i].tiles by {
        assert(map.sectors[i].wf());
        assert(map.baseline[i].wf());
        assert(map.sectors[i].follows(map.baseline[i]));
        lemma_patched_tiles(map.baseline[i], map.sectors[i]);
        assert(sectors[i].tiles == patched_sectors[i].tiles);
    }
}

/// Whether no entity of a list bears the identifier `id`.
pub open spec fn absent(entities: Seq<EntityView>, id: u32) -> bool {
    forall|j: int| 0 <= j < entities.len() ==> (#[trigger] entities[j]).kind.id() != Some(id)
}

/// Removing the entity with an identifier from a well-formed list leaves no
/// entity with that identifier, and removing any entity keeps an identifier
/// absent that was absent.
pub proof fn lemma_without_id_absent(entities: Seq<EntityView>, id: u32, other: u32)
    requires
        all_wf(entities),
    ensures
        absent(without_id(entities, id), id),
        absent(entities, other) ==> absent(without_id(entities, id), other),
{
    lemma_index_of_id(entities, id);
    let k = index_of_id(entities, id);
    let after = without_id(entities, id);
    if k < entities.len() {
        assert forall|j: int| 0 <= j < after.len() implies (#[trigger] after[j]).kind.id() != Some(id) by {
            let from = if j < k { j } else { j + 1 };
            assert(after[j] == entities[from]);
            assert(entities[k].kind.id() is Some ==> entities[k].kind.id() != entities[from].kind.id());
        }
        if absent(entities, other) {
            assert forall|j: int| 0 <= j < after.len() implies (#[trigger] after[j]).kind.id() != Some(other) by {
                let from = if j < k { j } else { j + 1 };
                assert(after[j] == entities[from]);
            }
        }
    }
}

/// After the entities of the first `n` entries of a ledger were removed, no
/// sector holds an entity that one of these entries names for it.
proof fn lemma_purged_prefix(sectors: Seq<SectorView>, ledger: Seq<(Seq<char>, u32)>, n: int, k: int)
    requires
        registry_wf(sectors),
        0 <= k < n <= ledger.len(),
        registered(sectors, ledger[k].0),
    ensures
        registry_wf(purged(sectors, ledger.take(n))),
        same_names(sectors, purged(sectors, ledger.take(n))),
        absent(purged(sectors, ledger.take(n))[index_of(sectors, ledger[k].0)].entities, ledger[k].1),
    decreases n,
{
    let entries = ledger.take(n);
    let front = ledger.take(n - 1);
    let last = ledger[n - 1];
    assert(entries.drop_last() =~= front);
    assert(entries.last() == last);
    lemma_purged(sectors, front, sectors);
    lemma_purged(sectors, entries, sectors);
    let before = purged(sectors, front);
    let after = purged(sectors, entries);
    lemma_registry_kept(sectors, before);
    lemma_registry_kept(sectors, after);
    let home = index_of(sectors, ledger[k].0);
    lemma_index_of(sectors, ledger[k].0);
    lemma_same_names_index(sectors, before, last.0);
    lemma_same_names_index(sectors, before, ledger[k].0);
    lemma_index_of(before, last.0);
    let at = index_of(before, last.0);
    if k < n - 1 {
        lemma_purged_prefix(sectors, ledger, n - 1, k);
        if at < before.len() {
            assert(before[at].wf());
            lemma_without_id_absent(before[at].entities, last.1, ledger[k].1);
        }
    } else {
        assert(at == home);
        assert(before[at].wf());
        lemma_without_id_absent(before[at].entities, last.1, last.1);
    }
}

/// Whether `entity` is one of the entities of a list.
pub open spec fn present(entities: Seq<EntityView>, entity: EntityView) -> bool {
    exists|j: int| 0 <= j < entities.len() && #[trigger] entities[j] == entity
}

/// Whether a ledger names the entity `entity` of the sector `sector`.
pub open spec fn named(ledger: Seq<(Seq<char>, u32)>, sector: Seq<char>, entity: EntityView) -> bool {
    exists|n: int| 0 <= n < ledger.len() && (#[trigger] ledger[n]).0 == sector && Some(ledger[n].1) == entity.kind.id()
}

/// Removing the entity with an identifier leaves every entity with another
/// identifier, or with none, in the list.
pub proof fn lemma_without_id_present(entities: Seq<EntityView>, id: u32, entity: EntityView)
    requires
        present(entities, entity),
        entity.kind.id() != Some(id),
    ensures
        present(without_id(entities, id), entity),
{
    lemma_index_of_id(entities, id);
    let k = index_of_id(entities, id);
    let j = choose|j: int| 0 <= j < entities.len() && #[trigger] entities[j] == entity;
    if k < entities.len() {
        let after = without_id(entities, id);
        assert(j != k);
        let to = if j < k { j } else { j - 1 };
        assert(after[to] == entity);
    }
}

/// After the entities of the first `n` entries of a ledger were removed, a
/// sector still holds every entity that none of the entries names for it.
proof fn lemma_purged_keeps(sectors: Seq<SectorView>, ledger: Seq<(Seq<char>, u32)>, n: int, i: int, entity: EntityView)
    requires
        registry_wf(sectors),
        0 <= n <= ledger.len(),
        0 <= i < sectors.len(),
        present(sectors[i].entities, entity),
        !named(ledger, sectors[i].id, entity),
    ensures
        same_names(sectors, purged(sectors, ledger.take(n))),
        present(purged(sectors, ledger.take(n))[i].entities, entity),
    decreases n,
{
    let entries = ledger.take(n);
    lemma_purged(sectors, entries, sectors);
    if n > 0 {
        let front = ledger.take(n - 1);
        let last = ledger[n - 1];
        assert(entries.drop_last() =~= front);
        assert(entries.last() == last);
        lemma_purged_keeps(sectors, ledger, n - 1, i, entity);
        let before = purged(sectors, front);
        lemma_index_of(before, last.0);
        let at = index_of(before, last.0);
        if at == i {
            assert(before[i].id == sectors[i].id);
            assert(!(ledger[n - 1].0 == sectors[i].id && Some(ledger[n - 1].1) == entity.kind.id()));
            lemma_without_id_present(before[i].entities, last.1, entity);
        }
    }
}

/// A restored world holds every entity of the baseline that the ledger of
/// the save does not name for its sector: only what was removed for good
/// stays away.
pub proof fn lemma_restored_keeps(world: WorldView, data: SaveView, i: int, entity: EntityView)
    requires
        world.wf(),
        data.fits(world.map.baseline),
        0 <= i < world.map.baseline.len(),
        present(world.map.baseline[i].entities, entity),
        !named(data.despawned, world.map.baseline[i].id, entity),
    ensures
        present(world.restored(data).map.sectors[i].entities, entity),
{
    let baseline = world.map.baseline;
    let patched_sectors = patched_all(baseline, data.tile_changes);
    lemma_patched_all(baseline, data.tile_changes, baseline);
    lemma_registry_kept(baseline, patched_sectors);
    assert(patched_sectors[i].entities == baseline[i].entities);
    assert(patched_sectors[i].id == baseline[i].id);
    assert(data.despawned.take(data.despawned.len() as int) =~= data.despawned);
    lemma_purged_keeps(patched_sectors, data.despawned, data.despawned.len() as int, i, entity);
}

/// A restored world holds no entity that the ledger of the save names for
/// its sector: what was removed for good stays away.
pub proof fn lemma_restored_excludes(world: WorldView, data: SaveView, k: int)
    requires
        world.wf(),
        data.fits(world.map.baseline),
        0 <= k < data.despawned.len(),
        registered(world.map.baseline, data.despawned[k].0),
    ensures
        absent(
            world.restored(data).map.sectors[index_of(world.map.baseline, data.despawned[k].0)].entities,
            data.despawned[k].1,
        ),
{
    let baseline = world.map.baseline;
    let patched_sectors = patched_all(baseline, data.tile_changes);
    lemma_patched_all(baseline, data.tile_changes, baseline);
    lemma_registry_kept(baseline, patched_sectors);
    lemma_same_names_index(baseline, patched_sectors, data.despawned[k].0);
    assert(data.despawned.take(data.despawned.len() as int) =~= data.despawned);
    lemma_purged_prefix(patched_sectors, data.despawned, data.despawned.len() as int, k);
}

/// A restored world depends on the world it is restored into only through
/// the baseline of its map, its turn counter and its difficulty: whatever
/// else happened to that world since the save was made is undone.
pub proof fn lemma_restore_forgets(a: WorldView, b: WorldView, data: SaveView)
    requires
        a.map.baseline == b.map.baseline,
        a.turn == b.turn,
        a.difficulty == b.difficulty,
    ensures
        a.restored(data) == b.restored(data),
{
}

fn sector_deltas(sector: &Sector) -> (r: Vec<(u32, u32, Tile)>)
    requires
        sector@.wf(),
    ensures
        r.deep_view() == deltas(sector@),
{
    let mut r: Vec<(u32, u32, Tile)> = Vec::new();
    let mut k: usize = 0;
    while k < sector.changed.len()
        invariant
            k <= sector.changed.len(),
            sector@.wf(),
            r.len() == k,
            forall|j: int| 0 <= j < k ==> (#[trigger] r[j]) == deltas(sector@)[j],
        decreases sector.changed.len() - k,
    {
        let (x, y) = sector.changed[k];
        assert(sector@.changed[k as int] == (x, y));
        let tile = sector.get(x, y).unwrap();
        r.push((x, y, tile));
        k = k + 1;
    }
    proof {
        assert(r.deep_view() =~= deltas(sector@));
    }
    r
}

fn clone_ledger(ledger: &Vec<(String, u32)>) -> (r: Vec<(String, u32)>)
    ensures
        r.deep_view() == ledger.deep_view(),
{
    let mut r: Vec<(String, u32)> = Vec::new();
    let mut i: usize = 0;
    while i < ledger.len()
        invariant
            i <= ledger.len(),
            r.len() == i,
            forall|j: int| 0 <= j < i ==> r[j].0@ == ledger[j].0@ && r[j].1 == ledger[j].1,
        decreases ledger.len() - i,
    {
        r.push((ledger[i].0.clone(), ledger[i].1));
        i = i + 1;
    }
    proof {
        assert(r.deep_view() =~= ledger.deep_view());
    }
    r
}

fn changes_in_grid(changes: &Vec<(u32, u32, Tile)>) -> (r: bool)
    ensures
        r == in_grid(changes.deep_view()),
{
    let mut k: usize = 0;
    while k < changes.len()
        invariant
            k <= changes.len(),
            forall|j: int|
                0 <= j < k ==> (#[trigger] changes.deep_view()[j]).0 < WIDTH && changes.deep_view()[j].1 < HEIGHT,
        decreases changes.len() - k,
    {
        if changes[k].0 as usize >= WIDTH || changes[k].1 as usize >= HEIGHT {
            assert(!(changes.deep_view()[k as int].0 < WIDTH && changes.deep_view()[k as int].1 < HEIGHT));
            return false;
        }
        assert(changes.deep_view()[k as int].0 < WIDTH && changes.deep_view()[k as int].1 < HEIGHT);
        k = k + 1;
    }
    true
}

impl SaveData {
    /// What is saved of `world`.
    pub fn from(world: &World) -> (r: SaveData)
        requires
            world@.wf(),
        ensures
            r@ == exported(world@),
    {
        let mut tile_changes: Vec<(String, Vec<(u32, u32, Tile)>)> = Vec::new();
        let mut i: usize = 0;
        while i < world.map.sectors.len()
            invariant
                i <= world.map.sectors.len(),
                world@.wf(),
                tile_changes.len() == i,
                forall|j: int|
                    0 <= j < i ==> (#[trigger] tile_changes[j]).0@ == world@.map.sectors[j].id
                        && tile_changes[j].1.deep_view() == deltas(world@.map.sectors[j]),
            decreases world.map.sectors.len() - i,
        {
            proof {
                assert(world@.map.sectors[i as int].wf());
            }
            let tiles = sector_deltas(&world.map.sectors[i]);
            tile_changes.push((world.map.sectors[i].id.clone(), tiles));
            i = i + 1;
        }
        proof {
            assert(tile_changes.deep_view() =~= all_deltas(world@.map.sectors));
        }
        SaveData {
            player: world.player.clone(),
            current_sector: world.map.sector().id.clone(),
            tile_changes,
            despawned: clone_ledger(&world.despawned),
        }
    }

    /// Whether `world` can be restored from the save.
    pub fn fits(&self, world: &World) -> (r: bool)
        ensures
            r == self@.fits(world@.map.baseline),
    {
        if find_sector(&world.map.baseline, self.current_sector.as_str()).is_none() {
            return false;
        }
        if self.player.x as usize >= WIDTH || self.player.y as usize >= HEIGHT {
            return false;
        }
        let mut i: usize = 0;
        while i < self.tile_changes.len()
            invariant
                i <= self.tile_changes.len(),
                forall|j: int| 0 <= j < i ==> in_grid((#[trigger] self@.tile_changes[j]).1),
            decreases self.tile_changes.len() - i,
        {
            if !changes_in_grid(&self.tile_changes[i].1) {
                assert(!in_grid(self@.tile_changes[i as int].1));
                return false;
            }
            assert(in_grid(self@.tile_changes[i as int].1));
            i = i + 1;
        }
        true
    }

    /// Restores `world` from the save, if the save fits the world, and
    /// says whether it did. A save that does not fit leaves the world as it
    /// is.
    pub fn apply(self, world: &mut World) -> (r: bool)
        requires
            old(world)@.wf(),
        ensures
            r == self@.fits(old(world)@.map.baseline),
            r ==> final(world)@ == old(world)@.restored(self@),
            !r ==> final(world)@ == old(world)@,
            final(world)@.wf(),
    {
        if !self.fits(world) {
            return false;
        }
        let ghost baseline = world@.map.baseline;
        let mut sectors = clone_sectors(&world.map.baseline);
        let mut i: usize = 0;
        proof {
            assert(self@.tile_changes.take(0) =~= Seq::empty());
        }
        while i < self.tile_changes.len()
            invariant
                i <= self.tile_changes.len(),
                registry_wf(baseline),
                self@.fits(baseline),
                sectors.deep_view() == patched_all(baseline, self@.tile_changes.take(i as int)),
            decreases self.tile_changes.len() - i,
        {
            let ghost before = sectors.deep_view();
            let ghost entry = self@.tile_changes[i as int];
            proof {
                assert(self@.tile_changes.take(i + 1).drop_last() =~= self@.tile_changes.take(i as int));
                assert(self@.tile_changes.take(i + 1).last() == entry);
                assert forall|j: int| 0 <= j < self@.tile_changes.take(i as int).len() implies in_grid(
                    (#[trigger] self@.tile_changes.take(i as int)[j]).1,
                ) by {
                    assert(self@.tile_changes.take(i as int)[j] == self@.tile_changes[j]);
                }
                lemma_patched_all(baseline, self@.tile_changes.take(i as int), baseline);
                assert(in_grid(entry.1));
            }
            match find_sector(&sectors, self.tile_changes[i].0.as_str()) {
                Some(at) => {
                    let mut k: usize = 0;
                    proof {
                        assert(sectors.deep_view().len() == sectors.len());
                        assert(entry.1.take(0) =~= Seq::empty());
                        assert(sectors.deep_view() =~= before.update(at as int, patched(before[at as int], entry.1.take(0))));
                    }
                    while k < self.tile_changes[i].1.len()
                        invariant
                            i < self.tile_changes.len(),
                            k <= self.tile_changes[i as int].1.len(),
                            at < before.len(),
                            sectors.len() == before.len(),
                            entry == self@.tile_changes[i as int],
                            in_grid(entry.1),
                            sectors.deep_view() == before.update(
                                at as int,
                                patched(before[at as int], entry.1.take(k as int)),
                            ),
                        decreases self.tile_changes[i as int].1.len() - k,
                    {
                        let (x, y, tile) = self.tile_changes[i].1[k];
                        let ghost mid = sectors.deep_view();
                        let ghost held = sectors@;
                        proof {
                            assert(entry.1[k as int] == (x, y, tile));
                            assert(entry.1.take(k + 1).drop_last() =~= entry.1.take(k as int));
                            assert(entry.1.take(k + 1).last() == (x, y, tile));
                        }
                        sectors[at].set(x, y, tile);
                        proof {
                            assert(sectors.deep_view().len() == sectors.len());
                            assert(sectors.deep_view()[at as int] == mid[at as int].with_tile(x, y, tile));
                            assert forall|j: int| 0 <= j < sectors.len() && j != at implies #[trigger] sectors.deep_view()[j]
                                == before[j] by {
                                assert(sectors@[j] == held[j]);
                                assert(mid[j] == held[j]@);
                            }
                            assert(patched(before[at as int], entry.1.take(k + 1)) == patched(
                                before[at as int],
                                entry.1.take(k as int),
                            ).with_tile(x, y, tile));
                            assert(sectors.deep_view() =~= before.update(
                                at as int,
                                patched(before[at as int], entry.1.take(k + 1)),
                            ));
                        }
                        k = k + 1;
                    }
                    proof {
                        assert(entry.1.take(k as int) =~= entry.1);
                    }
                },
                None => {},
            }
            i = i + 1;
        }
        proof {
            assert(self@.tile_changes.take(i as int) =~= self@.tile_changes);
            lemma_patched_all(baseline, self@.tile_changes, baseline);
        }
        let ghost patched_sectors = sectors.deep_view();
        let mut ledger: Vec<(String, u32)> = Vec::new();
        let mut n: usize = 0;
        proof {
            assert(self@.despawned.take(0) =~= Seq::empty());
            assert(ledger.deep_view() =~= Seq::<(Seq<char>, u32)>::empty());
        }
        while n < self.despawned.len()
            invariant
                n <= self.despawned.len(),
                baseline.len() == patched_sectors.len(),
                same_names(baseline, patched_sectors),
                forall|j: int| 0 <= j < patched_sectors.len() ==> (#[trigger] patched_sectors[j]).wf(),
                sectors.deep_view() == purged(patched_sectors, self@.despawned.take(n as int)),
                ledger.deep_view() == known(baseline, self@.despawned.take(n as int)),
            decreases self.despawned.len() - n,
        {
            let ghost before = sectors.deep_view();
            let ghost listed = ledger.deep_view();
            let ghost entry = self@.despawned[n as int];
            proof {
                assert(self@.despawned.take(n + 1).drop_last() =~= self@.despawned.take(n as int));
                assert(self@.despawned.take(n + 1).last() == entry);
                lemma_purged(patched_sectors, self@.despawned.take(n as int), baseline);
                lemma_same_names_index(patched_sectors, before, entry.0);
                lemma_same_names_index(baseline, patched_sectors, entry.0);
            }
            match find_sector(&sectors, self.despawned[n].0.as_str()) {
                Some(at) => {
                    sectors[at].despawn_id(self.despawned[n].1);
                    ledger.push((self.despawned[n].0.clone(), self.despawned[n].1));
                    proof {
                        assert(sectors.deep_view() =~= before.update(
                            at as int,
                            SectorView { entities: without_id(before[at as int].entities, entry.1), ..before[at as int] },
                        ));
                        assert(ledger.deep_view() =~= listed.push(entry));
                    }
                },
                None => {},
            }
            n = n + 1;
        }
        proof {
            assert(self@.despawned.take(n as int) =~= self@.despawned);
            lemma_purged(patched_sectors, self@.despawned, baseline);
            lemma_same_names_index(patched_sectors, sectors.deep_view(), self@.current_sector);
            lemma_same_names_index(baseline, patched_sectors, self@.current_sector);
            lemma_restored_wf(old(world)@, self@);
        }
        let current = find_sector(&sectors, self.current_sector.as_str()).unwrap();
        world.entities = clone_entities(sectors[current].entities());
        world.map.sectors = sectors;
        world.map.current = current;
        world.player = self.player;
        world.despawned = ledger;
        true
    }
}

} // verus!
