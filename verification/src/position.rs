//! Grid coordinates, map bounds and the four-neighbourhood.
use vstd::prelude::*;

verus! {

/// One cell of the map, by column `x` and row `y`.
#[derive(Clone, Copy, Debug, PartialEq, Eq, Hash, Structural)]
pub struct MapPosition {
    pub x: usize,
    pub y: usize,
}

impl MapPosition {
    /// The number that stands for this cell in hashed tables: `x` in the
    /// upper sixty-four bits, `y` in the lower.
    pub open spec fn spec_key(self) -> u128 {
        (self.x * 0x1_0000_0000_0000_0000 + self.y) as u128
    }

    /// Two cells with the same key are the same cell.
    pub proof fn lemma_key_injective(self, other: MapPosition)
        ensures
            self.spec_key() == other.spec_key() <==> self == other,
    {
    }

    /// Computes [`MapPosition::spec_key`].
    pub fn key(self) -> (k: u128)
        ensures
            k == self.spec_key(),
    {
        (self.x as u128) * 0x1_0000_0000_0000_0000u128 + (self.y as u128)
    }
}

impl Default for MapPosition {
    fn default() -> (origin: Self)
        ensures
            origin == (MapPosition { x: 0, y: 0 }),
    {
        MapPosition { x: 0, y: 0 }
    }
}

/// Extent of the map: the cells are `[0, width) x [0, height)`.
#[derive(Clone, Copy, Debug, PartialEq, Eq, Structural)]
pub struct MapSize {
    pub width: usize,
    pub height: usize,
}

impl MapSize {
    /// Whether `p` lies on the map.
    pub open spec fn contains(self, p: MapPosition) -> bool {
        p.x < self.width && p.y < self.height
    }

    /// Whether one move leads from `from` to `to`: the two cells share an
    /// edge and `to` lies on the map.
    pub open spec fn step(self, from: MapPosition, to: MapPosition) -> bool {
        self.contains(to) && manhattan(from, to) == 1
    }

    /// The cell to the left of `p`, if it lies on the map.
    pub open spec fn left_of(self, p: MapPosition) -> Seq<MapPosition> {
        if 0 < p.x <= self.width && p.y < self.height {
            seq![MapPosition { x: (p.x - 1) as usize, y: p.y }]
        } else {
            seq![]
        }
    }

    /// The cell to the right of `p`, if it lies on the map.
    pub open spec fn right_of(self, p: MapPosition) -> Seq<MapPosition> {
        if p.x + 1 < self.width && p.y < self.height {
            seq![MapPosition { x: (p.x + 1) as usize, y: p.y }]
        } else {
            seq![]
        }
    }

    /// The cell above `p`, if it lies on the map.
    pub open spec fn above(self, p: MapPosition) -> Seq<MapPosition> {
        if p.x < self.width && 0 < p.y <= self.height {
            seq![MapPosition { x: p.x, y: (p.y - 1) as usize }]
        } else {
            seq![]
        }
    }

    /// The cell below `p`, if it lies on the map.
    pub open spec fn below(self, p: MapPosition) -> Seq<MapPosition> {
        if p.x < self.width && p.y + 1 < self.height {
            seq![MapPosition { x: p.x, y: (p.y + 1) as usize }]
        } else {
            seq![]
        }
    }

    /// The cells one move away from `p`, in the order left, right, up, down.
    pub open spec fn neighbor_seq(self, p: MapPosition) -> Seq<MapPosition> {
        self.left_of(p) + self.right_of(p) + self.above(p) + self.below(p)
    }

    /// `neighbor_seq` lists exactly the cells that `step` admits.
    pub proof fn lemma_neighbor_seq_is_step(self, p: MapPosition, q: MapPosition)
        ensures
            self.neighbor_seq(p).contains(q) <==> self.step(p, q),
    {
        let s = self.neighbor_seq(p);
        let a = self.left_of(p).len() as int;
        let b = a + self.right_of(p).len();
        let c = b + self.above(p).len();
        if self.step(p, q) {
            if q.x < p.x {
                assert(q == self.left_of(p)[0]);
                assert(s[0] == q);
            } else if q.x > p.x {
                assert(q == self.right_of(p)[0]);
                assert(s[a] == q);
            } else if q.y < p.y {
                assert(q == self.above(p)[0]);
                assert(s[b] == q);
            } else {
                assert(q == self.below(p)[0]);
                assert(s[c] == q);
            }
        }
        if s.contains(q) {
            let i = choose|i: int| 0 <= i < s.len() && s[i] == q;
            if i < a {
                assert(s[i] == self.left_of(p)[i]);
            } else if i < b {
                assert(s[i] == self.right_of(p)[i - a]);
            } else if i < c {
                assert(s[i] == self.above(p)[i - b]);
            } else {
                assert(s[i] == self.below(p)[i - c]);
            }
            assert(self.step(p, q));
        }
    }
}

/// Edge length of one cell in world units.
pub const TILE_SIZE: usize = 16;

/// World coordinates of the corner of a cell: the cell's column and row,
/// each times [`TILE_SIZE`].
pub fn map_to_world_coordinates(map_position: &MapPosition) -> (world: (usize, usize))
    requires
        map_position.x * TILE_SIZE <= usize::MAX,
        map_position.y * TILE_SIZE <= usize::MAX,
    ensures
        world.0 == map_position.x * TILE_SIZE,
        world.1 == map_position.y * TILE_SIZE,
{
    (map_position.x * TILE_SIZE, map_position.y * TILE_SIZE)
}

/// Sum of the horizontal and the vertical distance between two cells.
pub open spec fn manhattan(a: MapPosition, b: MapPosition) -> nat {
    (if a.x >= b.x { a.x - b.x } else { b.x - a.x }
        + if a.y >= b.y { a.y - b.y } else { b.y - a.y }) as nat
}

/// Moving one cell changes the distance to any third cell by at most one.
pub proof fn lemma_manhattan_step(a: MapPosition, b: MapPosition, goal: MapPosition)
    requires
        manhattan(a, b) == 1,
    ensures
        manhattan(a, goal) <= manhattan(b, goal) + 1,
{
}

/// Manhattan distance between two cells.
pub fn manhattan_distance(a: MapPosition, b: MapPosition) -> (distance: u128)
    ensures
        distance == manhattan(a, b),
{
    let dx: usize = if a.x >= b.x { a.x - b.x } else { b.x - a.x };
    let dy: usize = if a.y >= b.y { a.y - b.y } else { b.y - a.y };
    dx as u128 + dy as u128
}

/// The cells one move away from `pos`: its orthogonal neighbours that lie on
/// the map, in the order left, right, up, down.
pub fn neighbors(size: MapSize, pos: MapPosition) -> (cells: Vec<MapPosition>)
    ensures
        cells@ == size.neighbor_seq(pos),
{
    let mut cells: Vec<MapPosition> = Vec::new();
    if pos.x > 0 && pos.x <= size.width && pos.y < size.height {
        cells.push(MapPosition { x: pos.x - 1, y: pos.y });
    }
    if pos.x < size.width && pos.x + 1 < size.width && pos.y < size.height {
        cells.push(MapPosition { x: pos.x + 1, y: pos.y });
    }
    if pos.x < size.width && pos.y > 0 && pos.y <= size.height {
        cells.push(MapPosition { x: pos.x, y: pos.y - 1 });
    }
    if pos.x < size.width && pos.y < size.height && pos.y + 1 < size.height {
        cells.push(MapPosition { x: pos.x, y: pos.y + 1 });
    }
    assert(cells@ =~= size.neighbor_seq(pos));
    cells
}

} // verus!
