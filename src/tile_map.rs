//! A bijective index between board positions and occupant handles.
use vstd::prelude::*;
use bimap::BiHashMap;

use crate::coord::{Coord, checked_shift, in_bounds, king_moves, king_seq, rook_moves, rook_seq, xy};

verus! {

#[verifier::external_type_specification]
#[verifier::external_body]
#[verifier::reject_recursive_types(L)]
#[verifier::reject_recursive_types(R)]
#[verifier::reject_recursive_types(LS)]
#[verifier::reject_recursive_types(RS)]
pub struct ExBiHashMap<L, R, LS, RS>(BiHashMap<L, R, LS, RS>);

/// The bimap that backs a `TileMap`.
pub type PositionBimap = BiHashMap<(i32, i32), u64>;

/// The position/handle pairs that a bimap holds.
pub uninterp spec fn bimap_pairs(m: PositionBimap) -> Map<Coord, u64>;

/// `m` without every pair whose handle is `v`.
pub open spec fn without_value(m: Map<Coord, u64>, v: u64) -> Map<Coord, u64> {
    Map::new(|k: Coord| m.contains_key(k) && m[k] != v, |k: Coord| m[k])
}

/// Whether some position of `m` holds the handle `v`.
pub open spec fn holds_value(m: Map<Coord, u64>, v: u64) -> bool {
    exists|k: Coord| m.contains_key(k) && m[k] == v
}

/// No handle is held by two positions.
pub open spec fn injective(m: Map<Coord, u64>) -> bool {
    forall|a: Coord, b: Coord|
        m.contains_key(a) && m.contains_key(b) && m[a] == m[b] ==> a == b
}

/// Which earlier pairs a call of `set` replaced.
#[derive(Clone, Copy, Debug, PartialEq, Eq)]
pub enum Overwritten {
    /// Neither the position nor the handle was bound.
    Neither,
    /// The position held another handle; that pair is returned.
    Left(Coord, u64),
    /// The handle stood at another position; that pair is returned.
    Right(Coord, u64),
    /// The very same pair was already there.
    Pair(Coord, u64),
    /// The position's pair and the handle's pair, two distinct pairs.
    Both((Coord, u64), (Coord, u64)),
}

/// Relies on `BiHashMap::new`: the map starts empty.
#[verifier::external_body]
fn bimap_new() -> (r: PositionBimap)
    ensures
        bimap_pairs(r).dom() == Set::<Coord>::empty(),
{
    BiHashMap::new()
}

/// Relies on `BiHashMap::get_by_left`: the handle bound to `k`, if any.
#[verifier::external_body]
fn bimap_get_by_left(m: &PositionBimap, k: Coord) -> (r: Option<u64>)
    ensures
        r == (if bimap_pairs(*m).contains_key(k) { Some(bimap_pairs(*m)[k]) } else { None }),
{
    m.get_by_left(&(k.x, k.y)).copied()
}

/// Relies on `BiHashMap::get_by_right`: the position bound to `v`, if any.
#[verifier::external_body]
fn bimap_get_by_right(m: &PositionBimap, v: u64) -> (r: Option<Coord>)
    ensures
        match r {
            Some(k) => bimap_pairs(*m).contains_key(k) && bimap_pairs(*m)[k] == v,
            None => !holds_value(bimap_pairs(*m), v),
        },
{
    m.get_by_right(&v).map(|p| Coord { x: p.0, y: p.1 })
}

/// Relies on `BiHashMap::remove_by_left`: drops the pair of `k` and returns it.
#[verifier::external_body]
fn bimap_remove_by_left(m: &mut PositionBimap, k: Coord) -> (r: Option<(Coord, u64)>)
    ensures
        bimap_pairs(*final(m)) == bimap_pairs(*old(m)).remove(k),
        r == (if bimap_pairs(*old(m)).contains_key(k) {
            Some((k, bimap_pairs(*old(m))[k]))
        } else {
            None
        }),
{
    m.remove_by_left(&(k.x, k.y)).map(|(p, e)| (Coord { x: p.0, y: p.1 }, e))
}

/// Relies on `BiHashMap::remove_by_right`: drops the pair of `v` and returns it.
#[verifier::external_body]
fn bimap_remove_by_right(m: &mut PositionBimap, v: u64) -> (r: Option<(Coord, u64)>)
    ensures
        match r {
            Some(p) => {
                &&& p.1 == v
                &&& bimap_pairs(*old(m)).contains_key(p.0)
                &&& bimap_pairs(*old(m))[p.0] == v
                &&& bimap_pairs(*final(m)) == bimap_pairs(*old(m)).remove(p.0)
            },
            None => {
                &&& !holds_value(bimap_pairs(*old(m)), v)
                &&& bimap_pairs(*final(m)) == bimap_pairs(*old(m))
            },
        },
{
    m.remove_by_right(&v).map(|(p, e)| (Coord { x: p.0, y: p.1 }, e))
}

/// Relies on `BiHashMap::insert`: evicts the pairs of `k` and of `v`, binds `k` to `v`,
/// and reports what was evicted.
#[verifier::external_body]
fn bimap_insert(m: &mut PositionBimap, k: Coord, v: u64) -> (r: Overwritten)
    ensures
        bimap_pairs(*final(m)) == without_value(bimap_pairs(*old(m)).remove(k), v).insert(k, v),
        match r {
            Overwritten::Neither => {
                &&& !bimap_pairs(*old(m)).contains_key(k)
                &&& !holds_value(bimap_pairs(*old(m)), v)
            },
            Overwritten::Left(k1, v1) => {
                &&& k1 == k
                &&& bimap_pairs(*old(m)).contains_key(k)
                &&& bimap_pairs(*old(m))[k] == v1
                &&& v1 != v
                &&& !holds_value(bimap_pairs(*old(m)), v)
            },
            Overwritten::Right(k1, v1) => {
                &&& v1 == v
                &&& !bimap_pairs(*old(m)).contains_key(k)
                &&& bimap_pairs(*old(m)).contains_key(k1)
                &&& bimap_pairs(*old(m))[k1] == v
            },
            Overwritten::Pair(k1, v1) => {
                &&& k1 == k
                &&& v1 == v
                &&& bimap_pairs(*old(m)).contains_key(k)
                &&& bimap_pairs(*old(m))[k] == v
            },
            Overwritten::Both(a, b) => {
                &&& a.0 == k
                &&& bimap_pairs(*old(m)).contains_key(k)
                &&& bimap_pairs(*old(m))[k] == a.1
                &&& a.1 != v
                &&& b.1 == v
                &&& b.0 != k
                &&& bimap_pairs(*old(m)).contains_key(b.0)
                &&& bimap_pairs(*old(m))[b.0] == v
            },
        },
{
    let c = |p: (i32, i32)| Coord { x: p.0, y: p.1 };
    match m.insert((k.x, k.y), v) {
        bimap::Overwritten::Neither => Overwritten::Neither,
        bimap::Overwritten::Left(a, b) => Overwritten::Left(c(a), b),
        bimap::Overwritten::Right(a, b) => Overwritten::Right(c(a), b),
        bimap::Overwritten::Pair(a, b) => Overwritten::Pair(c(a), b),
        bimap::Overwritten::Both(a, b) => Overwritten::Both((c(a.0), a.1), (c(b.0), b.1)),
    }
}

/// Relies on `BiHashMap::left_values`: every position once, in the map's own order.
#[verifier::external_body]
fn bimap_left_values(m: &PositionBimap) -> (r: Vec<Coord>)
    ensures
        r@.to_set() == bimap_pairs(*m).dom(),
        r@.no_duplicates(),
{
    m.left_values().map(|p| Coord { x: p.0, y: p.1 }).collect()
}

/// The cells `c + d` for the offsets `d` of `dirs`, in their order, that lie on
/// a board of `size`.
pub open spec fn neighbour_seq(size: Coord, c: Coord, dirs: Seq<Coord>) -> Seq<Coord>
    decreases dirs.len(),
{
    if dirs.len() == 0 {
        Seq::empty()
    } else {
        let rest = neighbour_seq(size, c, dirs.drop_last());
        let d = dirs.last();
        if 0 <= c.x + d.x < size.x && 0 <= c.y + d.y < size.y {
            rest.push(xy(c.x + d.x, c.y + d.y))
        } else {
            rest
        }
    }
}

/// The cells next to `c` along `dirs` that lie on a board of `size`.
fn neighbours(size: Coord, c: Coord, dirs: &Vec<Coord>) -> (r: Vec<Coord>)
    requires
        size.x > 0,
        size.y > 0,
    ensures
        r@ == neighbour_seq(size, c, dirs@),
{
    let mut r: Vec<Coord> = Vec::new();
    let mut j: usize = 0;
    while j < dirs.len()
        invariant
            j <= dirs@.len(),
            r@ == neighbour_seq(size, c, dirs@.subrange(0, j as int)),
        decreases dirs@.len() - j,
    {
        proof {
            assert(dirs@.subrange(0, j + 1).drop_last() =~= dirs@.subrange(0, j as int));
        }
        match checked_shift(c, dirs[j]) {
            Some(q) => {
                if 0 <= q.x && q.x < size.x && 0 <= q.y && q.y < size.y {
                    r.push(q);
                }
            },
            None => {},
        }
        j += 1;
    }
    proof {
        assert(dirs@.subrange(0, dirs@.len() as int) =~= dirs@);
    }
    r
}

/// Under the index's invariant, which every mutation keeps, each handle stands
/// at one position at most: the handle at `p` is located at `p`, and a handle
/// that is located somewhere is found there.
pub proof fn lemma_bijection(m: &TileMap, p: Coord, o: u64)
    requires
        m.wf(),
    ensures
        m@.contains_key(p) ==> forall|q: Coord|
            #[trigger] m@.contains_key(q) && m@[q] == m@[p] ==> q == p,
        holds_value(m@, o) ==> exists|q: Coord|
            #[trigger] m@.contains_key(q) && m@[q] == o && forall|q2: Coord|
                #[trigger] m@.contains_key(q2) && m@[q2] == o ==> q2 == q,
{
    if holds_value(m@, o) {
        let q = choose|q: Coord| m@.contains_key(q) && m@[q] == o;
        assert(m@.contains_key(q) && m@[q] == o);
    }
}

/// Setting a pair keeps a bijection a bijection, on any position and handle:
/// afterwards `position` holds `entity`, and `entity` stands nowhere else.
pub proof fn lemma_set_keeps_bijection(m: Map<Coord, u64>, position: Coord, entity: u64)
    requires
        injective(m),
    ensures
        injective(without_value(m.remove(position), entity).insert(position, entity)),
        without_value(m.remove(position), entity).insert(position, entity)[position] == entity,
        forall|q: Coord|
            #[trigger] without_value(m.remove(position), entity).insert(position, entity).contains_key(q)
                && without_value(m.remove(position), entity).insert(position, entity)[q] == entity
                ==> q == position,
{
}

/// An inclusive rectangle of cells, from `min` to `max`.
#[derive(Clone, Copy, Debug, PartialEq, Eq, Structural)]
pub struct Rect {
    pub min: Coord,
    pub max: Coord,
}

impl Rect {
    /// Whether `c` lies in the rectangle, borders included.
    pub fn contains(&self, c: Coord) -> (r: bool)
        ensures
            r == (self.min.x <= c.x <= self.max.x && self.min.y <= c.y <= self.max.y),
    {
        self.min.x <= c.x && c.x <= self.max.x && self.min.y <= c.y && c.y <= self.max.y
    }
}

/// A bijection between positions on a board of fixed size and occupant handles.
pub struct TileMap {
    size: Coord,
    map: PositionBimap,
}

impl TileMap {
    /// The pairs held, as a map from position to handle.
    pub closed spec fn view(&self) -> Map<Coord, u64> {
        bimap_pairs(self.map)
    }

    /// The board size given at construction.
    pub closed spec fn spec_size(&self) -> Coord {
        self.size
    }

    /// Positive size, every position on the board, every handle held once.
    pub open spec fn wf(&self) -> bool {
        &&& self.spec_size().x > 0
        &&& self.spec_size().y > 0
        &&& injective(self@)
        &&& forall|c: Coord| #[trigger] self@.contains_key(c) ==> in_bounds(self.spec_size(), c)
    }

    /// An empty index for a board of `size`; both sides must be positive.
    pub fn new(size: Coord) -> (r: TileMap)
        requires
            size.x > 0,
            size.y > 0,
        ensures
            r.wf(),
            r@.dom() == Set::<Coord>::empty(),
            r.spec_size() == size,
    {
        TileMap { size, map: bimap_new() }
    }

    pub fn size(&self) -> (r: Coord)
        ensures
            r == self.spec_size(),
    {
        self.size
    }

    /// The cells of the board, as an inclusive rectangle.
    pub fn bounds(&self) -> (r: Rect)
        requires
            self.wf(),
        ensures
            r.min == xy(0, 0),
            r.max == xy(self.spec_size().x - 1, self.spec_size().y - 1),
    {
        Rect { min: Coord { x: 0, y: 0 }, max: Coord { x: self.size.x - 1, y: self.size.y - 1 } }
    }

    pub fn is_occupied(&self, position: Coord) -> (r: bool)
        ensures
            r == self@.contains_key(position),
    {
        bimap_get_by_left(&self.map, position).is_some()
    }

    /// The handle at `position`, if any.
    pub fn get(&self, position: Coord) -> (r: Option<u64>)
        ensures
            r == (if self@.contains_key(position) { Some(self@[position]) } else { None }),
    {
        bimap_get_by_left(&self.map, position)
    }

    /// The position of `entity`, if it is on the board.
    pub fn locate(&self, entity: u64) -> (r: Option<Coord>)
        ensures
            match r {
                Some(p) => self@.contains_key(p) && self@[p] == entity,
                None => !holds_value(self@, entity),
            },
    {
        bimap_get_by_right(&self.map, entity)
    }

    /// Places `entity` at `position`, moving it if it was elsewhere and
    /// evicting whatever stood at `position`.
    pub fn set(&mut self, position: Coord, entity: u64) -> (r: Overwritten)
        requires
            old(self).wf(),
            in_bounds(old(self).spec_size(), position),
        ensures
            final(self).wf(),
            final(self).spec_size() == old(self).spec_size(),
            final(self)@ == without_value(old(self)@.remove(position), entity).insert(position, entity),
            match r {
                Overwritten::Neither => {
                    &&& !old(self)@.contains_key(position)
                    &&& !holds_value(old(self)@, entity)
                },
                Overwritten::Left(p, e) => {
                    &&& p == position
                    &&& old(self)@.contains_key(position)
                    &&& old(self)@[position] == e
                    &&& e != entity
                    &&& !holds_value(old(self)@, entity)
                },
                Overwritten::Right(p, e) => {
                    &&& e == entity
                    &&& !old(self)@.contains_key(position)
                    &&& old(self)@.contains_key(p)
                    &&& old(self)@[p] == entity
                },
                Overwritten::Pair(p, e) => {
                    &&& p == position
                    &&& e == entity
                    &&& old(self)@.contains_key(position)
                    &&& old(self)@[position] == entity
                },
                Overwritten::Both(a, b) => {
                    &&& a.0 == position
                    &&& old(self)@.contains_key(position)
                    &&& old(self)@[position] == a.1
                    &&& a.1 != entity
                    &&& b.1 == entity
                    &&& b.0 != position
                    &&& old(self)@.contains_key(b.0)
                    &&& old(self)@[b.0] == entity
                },
            },
    {
        let r = bimap_insert(&mut self.map, position, entity);
        assert(forall|c: Coord| #[trigger] self@.contains_key(c) ==> in_bounds(self.spec_size(), c));
        r
    }

    /// Removes and returns the handle at `position`.
    pub fn remove(&mut self, position: Coord) -> (r: Option<u64>)
        requires
            old(self).wf(),
        ensures
            final(self).wf(),
            final(self).spec_size() == old(self).spec_size(),
            final(self)@ == old(self)@.remove(position),
            r == (if old(self)@.contains_key(position) { Some(old(self)@[position]) } else { None }),
    {
        match bimap_remove_by_left(&mut self.map, position) {
            Some(pair) => Some(pair.1),
            None => None,
        }
    }

    /// Removes `entity` from the board and returns where it stood.
    pub fn remove_entity(&mut self, entity: u64) -> (r: Option<Coord>)
        requires
            old(self).wf(),
        ensures
            final(self).wf(),
            final(self).spec_size() == old(self).spec_size(),
            final(self)@ == without_value(old(self)@, entity),
            match r {
                Some(p) => old(self)@.contains_key(p) && old(self)@[p] == entity,
                None => !holds_value(old(self)@, entity),
            },
    {
        let r = bimap_remove_by_right(&mut self.map, entity);
        assert(self@ =~= without_value(old(self)@, entity));
        match r {
            Some(pair) => Some(pair.0),
            None => None,
        }
    }

    /// The rook neighbours of `position` that lie on the board, in the order
    /// north, east, south, west.
    pub fn get_neighbouring_positions_rook(&self, position: Coord) -> (r: Vec<Coord>)
        requires
            self.wf(),
        ensures
            r@ == neighbour_seq(self.spec_size(), position, rook_seq()),
    {
        neighbours(self.size, position, &rook_moves())
    }

    /// The king neighbours of `position` that lie on the board, clockwise from north.
    pub fn get_neighbouring_positions_king(&self, position: Coord) -> (r: Vec<Coord>)
        requires
            self.wf(),
        ensures
            r@ == neighbour_seq(self.spec_size(), position, king_seq()),
    {
        neighbours(self.size, position, &king_moves())
    }

    /// Every occupied position, each once, in no particular order.
    pub fn positions(&self) -> (r: Vec<Coord>)
        ensures
            r@.to_set() == self@.dom(),
            r@.no_duplicates(),
    {
        bimap_left_values(&self.map)
    }
}

} // verus!
