//! The tile index: one merged record per map cell.
use crate::position::{MapPosition, MapSize};
use std::collections::HashMap;
use vstd::prelude::*;

verus! {

/// The lowest cost that entering a walkable cell can have. A lower
/// configured cost is raised to it.
pub const MIN_WALK_COST: u32 = 1;

/// One map entity as the index sees it: where it sits, whether it blocks the
/// cell, and what entering it costs if it is a floor to walk on.
#[derive(Clone, Copy, Debug, PartialEq, Eq)]
pub struct Tile {
    pub position: MapPosition,
    pub blocked: bool,
    pub walk_cost: Option<u32>,
}

/// What is known of one cell once every entity on it has been merged.
#[derive(Clone, Copy, Debug, PartialEq, Eq)]
pub struct TileRecord {
    /// Some entity on the cell blocks it.
    pub blocked: bool,
    /// Cost of entering the cell; `None` where nothing on it can be walked on.
    pub walk_cost: Option<u32>,
}

/// A configured cost, raised to [`MIN_WALK_COST`] where it is lower.
pub open spec fn clamp_cost(cost: u32) -> u32 {
    if cost < MIN_WALK_COST {
        MIN_WALK_COST
    } else {
        cost
    }
}

/// Some tile of `tiles` sits on `p`.
pub open spec fn merged_present(tiles: Seq<Tile>, p: MapPosition) -> bool {
    exists|i: int| 0 <= i < tiles.len() && (#[trigger] tiles[i]).position == p
}

/// Some tile of `tiles` sits on `p` and blocks it.
pub open spec fn merged_blocked(tiles: Seq<Tile>, p: MapPosition) -> bool {
    exists|i: int| 0 <= i < tiles.len() && (#[trigger] tiles[i]).position == p && tiles[i].blocked
}

/// The clamped cost of the last tile of `tiles` that sits on `p` and has a
/// cost; `None` if there is no such tile.
pub open spec fn merged_cost(tiles: Seq<Tile>, p: MapPosition) -> Option<u32>
    decreases tiles.len(),
{
    if tiles.len() == 0 {
        None
    } else if tiles.last().position == p && tiles.last().walk_cost is Some {
        Some(clamp_cost(tiles.last().walk_cost->Some_0))
    } else {
        merged_cost(tiles.drop_last(), p)
    }
}

/// The records that merging `tiles` gives: one for each cell that a tile sits
/// on, blocked if any tile there blocks, with the cost of the last tile there
/// that has one.
pub open spec fn merged(tiles: Seq<Tile>) -> Map<MapPosition, TileRecord> {
    Map::new(
        |p: MapPosition| merged_present(tiles, p),
        |p: MapPosition|
            TileRecord { blocked: merged_blocked(tiles, p), walk_cost: merged_cost(tiles, p) },
    )
}

/// How one more tile changes what is merged at `p`.
pub proof fn lemma_merged_push(tiles: Seq<Tile>, tile: Tile, p: MapPosition)
    ensures
        merged_present(tiles.push(tile), p) == (merged_present(tiles, p) || tile.position == p),
        merged_blocked(tiles.push(tile), p) == (merged_blocked(tiles, p) || (tile.position == p
            && tile.blocked)),
        merged_cost(tiles.push(tile), p) == (if tile.position == p && tile.walk_cost is Some {
            Some(clamp_cost(tile.walk_cost->Some_0))
        } else {
            merged_cost(tiles, p)
        }),
{
    let more = tiles.push(tile);
    assert(more.drop_last() =~= tiles);
    assert(more.last() == tile);
    assert(more[tiles.len() as int] == tile);
    if merged_present(tiles, p) {
        let i = choose|i: int| 0 <= i < tiles.len() && (#[trigger] tiles[i]).position == p;
        assert(more[i] == tiles[i]);
    }
    if merged_present(more, p) && tile.position != p {
        let i = choose|i: int| 0 <= i < more.len() && (#[trigger] more[i]).position == p;
        assert(more[i] == tiles[i]);
    }
    if merged_blocked(tiles, p) {
        let i = choose|i: int|
            0 <= i < tiles.len() && (#[trigger] tiles[i]).position == p && tiles[i].blocked;
        assert(more[i] == tiles[i]);
    }
    if merged_blocked(more, p) && !(tile.position == p && tile.blocked) {
        let i = choose|i: int|
            0 <= i < more.len() && (#[trigger] more[i]).position == p && more[i].blocked;
        assert(more[i] == tiles[i]);
    }
}

/// Nothing is merged at a cell that no tile sits on.
pub proof fn lemma_merged_absent(tiles: Seq<Tile>, p: MapPosition)
    requires
        !merged_present(tiles, p),
    ensures
        !merged_blocked(tiles, p),
        merged_cost(tiles, p) is None,
    decreases tiles.len(),
{
    if merged_blocked(tiles, p) {
        let i = choose|i: int|
            0 <= i < tiles.len() && (#[trigger] tiles[i]).position == p && tiles[i].blocked;
        assert(tiles[i].position == p);
    }
    if tiles.len() > 0 {
        let rest = tiles.drop_last();
        assert(tiles[tiles.len() - 1].position != p);
        assert forall|i: int| 0 <= i < rest.len() implies (#[trigger] rest[i]).position != p by {
            assert(rest[i] == tiles[i]);
        }
        lemma_merged_absent(rest, p);
    }
}

/// A merged cost is never below [`MIN_WALK_COST`].
pub proof fn lemma_merged_cost_positive(tiles: Seq<Tile>, p: MapPosition)
    ensures
        merged_cost(tiles, p) matches Some(cost) ==> cost >= MIN_WALK_COST,
    decreases tiles.len(),
{
    if tiles.len() > 0 {
        lemma_merged_cost_positive(tiles.drop_last(), p);
    }
}

/// The merged view of a map: its extent, and for each cell that holds a tile
/// the cell's record.
pub struct TileIndex {
    size: MapSize,
    records: HashMap<u128, TileRecord>,
}

impl View for TileIndex {
    type V = Map<MapPosition, TileRecord>;

    closed spec fn view(&self) -> Map<MapPosition, TileRecord> {
        Map::new(
            |p: MapPosition| self.records@.contains_key(p.spec_key()),
            |p: MapPosition| self.records@[p.spec_key()],
        )
    }
}

impl TileIndex {
    /// The extent of the map that the index was built for.
    pub closed spec fn bounds(self) -> MapSize {
        self.size
    }

    /// Every cost in the index is at least [`MIN_WALK_COST`]. This holds of
    /// every index that the crate hands out.
    #[verifier::type_invariant]
    pub open spec fn wf(self) -> bool {
        forall|p: MapPosition| #[trigger]
            self@.contains_key(p) ==> (self@[p].walk_cost matches Some(cost) ==> cost
                >= MIN_WALK_COST)
    }

    /// What entering `p` costs: the cell's cost if the index holds the cell,
    /// nothing blocks it and it can be walked on; `None` otherwise. A cell
    /// that the index does not hold cannot be entered.
    pub open spec fn entry_cost(self, p: MapPosition) -> Option<u32> {
        if self@.contains_key(p) && !self@[p].blocked {
            self@[p].walk_cost
        } else {
            None
        }
    }

    /// Whether `p` can be entered.
    pub open spec fn passable(self, p: MapPosition) -> bool {
        self.entry_cost(p) is Some
    }

    /// The keys under which the records are stored.
    pub(crate) closed spec fn keys(self) -> Set<u128> {
        self.records@.dom()
    }

    /// The keys are finitely many, no more than a table can hold, and every
    /// cell of the view is stored under its key.
    pub(crate) proof fn lemma_keys(self)
        ensures
            self.keys().finite(),
            self.keys().len() <= usize::MAX,
            forall|p: MapPosition| #[trigger]
                self@.contains_key(p) ==> self.keys().contains(p.spec_key()),
    {
        let count = vstd::std_specs::hash::spec_hash_map_len(&self.records);
        assert(count == self.records@.len());
    }

    /// The extent of the map that the index was built for.
    pub fn size(&self) -> (size: MapSize)
        ensures
            size == self.bounds(),
    {
        self.size
    }

    /// The record of the cell `pos`, if a tile sits on it.
    pub fn get(&self, pos: MapPosition) -> (record: Option<TileRecord>)
        ensures
            record == (if self@.contains_key(pos) {
                Some(self@[pos])
            } else {
                None
            }),
    {
        match self.records.get(&pos.key()) {
            Some(record) => Some(*record),
            None => None,
        }
    }
}

/// Cost of entering `pos` according to `lookup`: `None` where the cell is
/// blocked, holds no tile, or holds nothing that can be walked on.
pub fn get_walkable_cost(pos: &MapPosition, lookup: &TileIndex) -> (cost: Option<u32>)
    ensures
        cost == lookup.entry_cost(*pos),
        cost matches Some(c) ==> c >= MIN_WALK_COST,
{
    proof {
        use_type_invariant(lookup);
    }
    match lookup.records.get(&pos.key()) {
        Some(record) => if record.blocked {
            None
        } else {
            record.walk_cost
        },
        None => None,
    }
}

/// Builds the index of a map of extent `size` from its tiles. Where several
/// tiles sit on one cell they are merged: the cell is blocked if any of them
/// blocks it, and its cost is that of the last of them that has one, raised
/// to [`MIN_WALK_COST`] where it is lower.
pub fn build_tile_lookup(size: MapSize, tiles: &Vec<Tile>) -> (index: TileIndex)
    ensures
        index.bounds() == size,
        index@ == merged(tiles@),
        index.wf(),
{
    let mut records: HashMap<u128, TileRecord> = HashMap::new();
    let mut i: usize = 0;
    while i < tiles.len()
        invariant
            i <= tiles.len(),
            forall|p: MapPosition|
                records@.contains_key(#[trigger] p.spec_key()) <==> merged_present(
                    tiles@.take(i as int),
                    p,
                ),
            forall|p: MapPosition|
                records@.contains_key(#[trigger] p.spec_key()) ==> records@[p.spec_key()] == (
                TileRecord {
                    blocked: merged_blocked(tiles@.take(i as int), p),
                    walk_cost: merged_cost(tiles@.take(i as int), p),
                }),
            forall|k: u128| #[trigger]
                records@.contains_key(k) ==> (records@[k].walk_cost matches Some(cost) ==> cost
                    >= MIN_WALK_COST),
        decreases tiles.len() - i,
    {
        let tile: Tile = tiles[i];
        let key: u128 = tile.position.key();
        let walk_cost = match tile.walk_cost {
            Some(cost) => Some(if cost < MIN_WALK_COST { MIN_WALK_COST } else { cost }),
            None => None,
        };
        let record = match records.get(&key) {
            Some(existing) => TileRecord {
                blocked: existing.blocked || tile.blocked,
                walk_cost: match walk_cost {
                    Some(cost) => Some(cost),
                    None => existing.walk_cost,
                },
            },
            None => TileRecord { blocked: tile.blocked, walk_cost },
        };
        records.insert(key, record);
        proof {
            let before = tiles@.take(i as int);
            assert(tiles@.take(i + 1) =~= before.push(tile));
            assert forall|p: MapPosition|
                (records@.contains_key(#[trigger] p.spec_key()) <==> merged_present(
                    tiles@.take(i + 1),
                    p,
                )) && (records@.contains_key(p.spec_key()) ==> records@[p.spec_key()] == (
                TileRecord {
                    blocked: merged_blocked(tiles@.take(i + 1), p),
                    walk_cost: merged_cost(tiles@.take(i + 1), p),
                })) by {
                lemma_merged_push(before, tile, p);
                p.lemma_key_injective(tile.position);
                if !merged_present(before, p) {
                    lemma_merged_absent(before, p);
                }
            }
        }
        i += 1;
    }
    proof {
        assert(tiles@.take(i as int) =~= tiles@);
    }
    let index = TileIndex { size, records };
    assert(index@ =~= merged(tiles@));
    index
}

} // verus!
