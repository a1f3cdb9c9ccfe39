//! The board: terrain and occupant indices, the heat map, and passability.
use vstd::prelude::*;
use std::collections::HashMap;
use std::collections::HashSet;

use crate::coord::{Coord, in_bounds};
use crate::tile_map::TileMap;

verus! {

broadcast use vstd::std_specs::hash::group_hash_axioms;

/// The kind of ground a terrain marker stands for.
#[derive(Clone, Copy, Debug, PartialEq, Eq, Hash, Structural)]
pub enum Terrain {
    Grass,
    Gravel,
    Water,
}

/// Which cells a search may enter besides staying on the board.
#[derive(Clone, Copy, Debug, PartialEq, Eq, Structural)]
pub enum Passage {
    /// Every cell of the board.
    Unrestricted,
    /// Free cells that a mover can stand on; the flag says whether it flies.
    Mover(bool),
}

/// Row-major index of a cell on a board `size.x` wide.
pub open spec fn cell_index(size: Coord, c: Coord) -> int {
    c.x + c.y * size.x
}

/// The value that a per-cell array holds for `c`.
pub open spec fn at_cell<T>(a: Seq<T>, size: Coord, c: Coord) -> T {
    a[cell_index(size, c)]
}

pub proof fn lemma_cell_index_bounds(size: Coord, c: Coord)
    requires
        in_bounds(size, c),
    ensures
        0 <= cell_index(size, c) < size.x * size.y,
{
    assert(0 <= c.x + c.y * size.x < size.x * size.y) by (nonlinear_arith)
        requires 0 <= c.x < size.x, 0 <= c.y < size.y;
}

pub proof fn lemma_cell_index_injective(size: Coord, a: Coord, b: Coord)
    requires
        in_bounds(size, a),
        in_bounds(size, b),
        cell_index(size, a) == cell_index(size, b),
    ensures
        a == b,
{
    assert(a.y == b.y) by (nonlinear_arith)
        requires
            0 <= a.x < size.x,
            0 <= b.x < size.x,
            a.x + a.y * size.x == b.x + b.y * size.x;
}

/// The game board: its size, the heat map, terrain markers, occupants and the
/// cells where units may be deployed.
pub struct VillageMap {
    pub size: Coord,
    pub heat_map: Vec<u32>,
    pub terrain: TileMap,
    pub object: TileMap,
    pub deployment_zone: HashSet<Coord>,
}

impl VillageMap {
    /// Positive size whose cells fit in memory, and two indices over this size.
    pub open spec fn wf(&self) -> bool {
        &&& self.size.x > 0
        &&& self.size.y > 0
        &&& self.size.x * self.size.y <= usize::MAX
        &&& self.terrain.wf()
        &&& self.object.wf()
        &&& self.terrain.spec_size() == self.size
        &&& self.object.spec_size() == self.size
    }

    /// The heat map holds one value per cell.
    pub open spec fn heat_ready(&self) -> bool {
        self.heat_map@.len() == self.size.x * self.size.y
    }

    /// The terrain kind of the marker at `c`, where there is one with a known kind.
    pub open spec fn terrain_at(&self, kinds: Map<u64, Terrain>, c: Coord) -> Option<Terrain> {
        if self.terrain@.contains_key(c) && kinds.contains_key(self.terrain@[c]) {
            Some(kinds[self.terrain@[c]])
        } else {
            None
        }
    }

    /// Whether a search under `rule` may step onto `c`.
    pub open spec fn enterable(&self, kinds: Map<u64, Terrain>, rule: Passage, c: Coord) -> bool {
        &&& in_bounds(self.size, c)
        &&& match rule {
            Passage::Unrestricted => true,
            Passage::Mover(airborne) => {
                &&& !self.object@.contains_key(c)
                &&& (self.terrain_at(kinds, c) == Some(Terrain::Water) ==> airborne)
            },
        }
    }

    /// Whether one move along one of `dirs` leads from `p` to `q` under `rule`.
    pub open spec fn step(
        &self,
        kinds: Map<u64, Terrain>,
        dirs: Seq<Coord>,
        rule: Passage,
        p: Coord,
        q: Coord,
    ) -> bool {
        &&& exists|i: int|
            0 <= i < dirs.len() && q.x == p.x + dirs[i].x && q.y == p.y + dirs[i].y
        &&& self.enterable(kinds, rule, q)
    }

    /// A board of `size` with no markers, no occupants and no heat map yet.
    pub fn new(size: Coord) -> (r: VillageMap)
        requires
            size.x > 0,
            size.y > 0,
            size.x * size.y <= usize::MAX,
        ensures
            r.wf(),
            r.size == size,
            r.heat_map@.len() == 0,
            r.terrain@.dom().is_empty(),
            r.object@.dom().is_empty(),
            r.deployment_zone@.is_empty(),
    {
        VillageMap {
            size,
            heat_map: Vec::new(),
            terrain: TileMap::new(size),
            object: TileMap::new(size),
            deployment_zone: HashSet::new(),
        }
    }

    pub fn isize(&self) -> (r: Coord)
        ensures
            r == self.size,
    {
        self.size
    }

    pub fn is_out_of_bounds(&self, coord: Coord) -> (r: bool)
        ensures
            r == !in_bounds(self.size, coord),
    {
        coord.x < 0 || coord.y < 0 || coord.x >= self.size.x || coord.y >= self.size.y
    }

    /// Row-major index of a cell of the board.
    pub fn index_of(&self, c: Coord) -> (r: usize)
        requires
            self.wf(),
            in_bounds(self.size, c),
        ensures
            r == cell_index(self.size, c),
            r < self.size.x * self.size.y,
    {
        proof {
            lemma_cell_index_bounds(self.size, c);
        }
        c.x as usize + c.y as usize * self.size.x as usize
    }

    /// The terrain kind at `c`: the marker's handle looked up in `kinds`.
    pub fn terrain_kind(&self, kinds: &HashMap<u64, Terrain>, c: Coord) -> (r: Option<Terrain>)
        ensures
            r == self.terrain_at(kinds@, c),
    {
        match self.terrain.get(c) {
            Some(e) => match kinds.get(&e) {
                Some(t) => Some(*t),
                None => None,
            },
            None => None,
        }
    }

    /// Whether a search under `rule` may step onto `c`.
    pub fn can_enter(&self, kinds: &HashMap<u64, Terrain>, rule: Passage, c: Coord) -> (r: bool)
        ensures
            r == self.enterable(kinds@, rule, c),
    {
        if self.is_out_of_bounds(c) {
            return false;
        }
        match rule {
            Passage::Unrestricted => true,
            Passage::Mover(airborne) => {
                if self.object.is_occupied(c) {
                    return false;
                }
                match self.terrain_kind(kinds, c) {
                    Some(Terrain::Water) => airborne,
                    _ => true,
                }
            },
        }
    }
}

} // verus!
