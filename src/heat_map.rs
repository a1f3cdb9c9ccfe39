//! Proximity of every cell to the nearest occupant, and the reachability flood.
use vstd::prelude::*;
use std::collections::HashMap;

use crate::coord::{Coord, in_bounds, manhattan, rook_moves, rook_seq, xy};
use crate::spread::UNVISITED;
use crate::village_map::{Passage, Terrain, VillageMap, at_cell, lemma_cell_index_bounds};

verus! {

/// `h` is the smallest manhattan distance from `c` to a cell of `occupied`.
pub open spec fn nearest_distance(occupied: Set<Coord>, c: Coord, h: int) -> bool {
    &&& exists|o: Coord| #[trigger] occupied.contains(o) && manhattan(c, o) == h
    &&& forall|o: Coord| #[trigger] occupied.contains(o) ==> manhattan(c, o) >= h
}

/// The heat value that every cell of a board holds under `occupied`.
pub open spec fn heat_of(occupied: Set<Coord>, c: Coord, h: int) -> bool {
    if occupied.is_empty() {
        h == 0
    } else {
        nearest_distance(occupied, c, h)
    }
}

/// With one occupant at the origin, a cell's heat is the sum of its coordinates.
pub proof fn lemma_single_source_heat(occupied: Set<Coord>, c: Coord, h: int)
    requires
        occupied == set![xy(0, 0)],
        c.x >= 0,
        c.y >= 0,
        heat_of(occupied, c, h),
    ensures
        h == c.x + c.y,
{
    assert(occupied.contains(xy(0, 0)));
    let o = choose|o: Coord| #[trigger] occupied.contains(o) && manhattan(c, o) == h;
    assert(o == xy(0, 0));
}

impl VillageMap {
    /// Spreading freely with rook moves from `occupied` reaches in `k` moves exactly
    /// the cells within manhattan distance `k` of an occupied cell.
    pub proof fn lemma_free_reach_is_manhattan(
        &self,
        kinds: Map<u64, Terrain>,
        occupied: Set<Coord>,
        k: nat,
    )
        requires
            self.wf(),
            forall|o: Coord| occupied.contains(o) ==> in_bounds(self.size, o),
        ensures
            forall|c: Coord|
                #[trigger] self.reach(kinds, rook_seq(), Passage::Unrestricted, occupied, k).contains(c)
                    <==> in_bounds(self.size, c) && exists|o: Coord| #[trigger]
                    occupied.contains(o) && manhattan(c, o) <= k,
        decreases k,
    {
        let dirs = rook_seq();
        let rule = Passage::Unrestricted;
        if k == 0 {
            assert forall|c: Coord|
                #[trigger] self.reach(kinds, dirs, rule, occupied, k).contains(c)
                    <==> in_bounds(self.size, c) && exists|o: Coord| #[trigger]
                    occupied.contains(o) && manhattan(c, o) <= k by {
                if occupied.contains(c) {
                    assert(manhattan(c, c) == 0);
                }
                if exists|o: Coord| #[trigger] occupied.contains(o) && manhattan(c, o) <= k {
                    let o = choose|o: Coord| #[trigger] occupied.contains(o) && manhattan(c, o) <= k;
                    assert(c == o);
                }
            }
        } else {
            let k0 = (k - 1) as nat;
            let prev = self.reach(kinds, dirs, rule, occupied, k0);
            self.lemma_free_reach_is_manhattan(kinds, occupied, k0);
            assert forall|c: Coord|
                #[trigger] self.reach(kinds, dirs, rule, occupied, k).contains(c)
                    <==> in_bounds(self.size, c) && exists|o: Coord| #[trigger]
                    occupied.contains(o) && manhattan(c, o) <= k by {
                if self.reach(kinds, dirs, rule, occupied, k).contains(c) {
                    if prev.contains(c) {
                        let o = choose|o: Coord| #[trigger] occupied.contains(o) && manhattan(c, o) <= k0;
                        assert(occupied.contains(o) && manhattan(c, o) <= k);
                    } else {
                        assert(self.next_of(kinds, dirs, rule, prev).contains(c));
                        let p = choose|p: Coord| #[trigger] prev.contains(p) && self.step(kinds, dirs, rule, p, c);
                        let o = choose|o: Coord| #[trigger] occupied.contains(o) && manhattan(p, o) <= k0;
                        let i = choose|i: int|
                            0 <= i < dirs.len() && c.x == p.x + dirs[i].x && c.y == p.y + dirs[i].y;
                        assert(manhattan(c, o) <= manhattan(p, o) + 1);
                        assert(occupied.contains(o) && manhattan(c, o) <= k);
                    }
                }
                if in_bounds(self.size, c) && exists|o: Coord| #[trigger]
                    occupied.contains(o) && manhattan(c, o) <= k {
                    let o = choose|o: Coord| #[trigger] occupied.contains(o) && manhattan(c, o) <= k;
                    if manhattan(c, o) <= k0 {
                        assert(prev.contains(c));
                    } else {
                        let (p, i) = if c.x < o.x {
                            (xy(c.x + 1, c.y as int), 3int)
                        } else if c.x > o.x {
                            (xy(c.x - 1, c.y as int), 1int)
                        } else if c.y < o.y {
                            (xy(c.x as int, c.y + 1), 0int)
                        } else {
                            (xy(c.x as int, c.y - 1), 2int)
                        };
                        assert(in_bounds(self.size, p));
                        assert(manhattan(p, o) <= k0);
                        assert(prev.contains(p));
                        assert(c.x == p.x + dirs[i].x && c.y == p.y + dirs[i].y);
                        assert(self.step(kinds, dirs, rule, p, c));
                        assert(self.next_of(kinds, dirs, rule, prev).contains(c));
                    }
                }
            }
        }
    }
    /// A cell first reached by a free rook spread after `d` moves lies at
    /// manhattan distance `d` from the nearest occupied cell.
    pub proof fn lemma_nearest_from_reach(
        &self,
        kinds: Map<u64, Terrain>,
        occupied: Set<Coord>,
        c: Coord,
        d: nat,
    )
        requires
            self.wf(),
            forall|o: Coord| occupied.contains(o) ==> in_bounds(self.size, o),
            self.at_distance(kinds, rook_seq(), Passage::Unrestricted, occupied, c, d),
        ensures
            nearest_distance(occupied, c, d as int),
    {
        let rule = Passage::Unrestricted;
        self.lemma_free_reach_is_manhattan(kinds, occupied, d);
        assert(self.reach(kinds, rook_seq(), rule, occupied, d).contains(c));
        let w = choose|w: Coord| #[trigger] occupied.contains(w) && manhattan(c, w) <= d;
        if d > 0 {
            self.lemma_free_reach_is_manhattan(kinds, occupied, (d - 1) as nat);
            assert forall|o2: Coord| #[trigger] occupied.contains(o2) implies manhattan(c, o2) >= d by {
                if manhattan(c, o2) < d {
                    assert(self.reach(kinds, rook_seq(), rule, occupied, (d - 1) as nat).contains(c));
                }
            }
        }
        assert(manhattan(c, w) == d);
    }

    /// Cells reachable from `start` in at most `max_distance` moves along
    /// `directions`, through free cells that the mover can stand on, `start`
    /// included; each once, in no particular order.
    pub fn flood(
        &self,
        start: Coord,
        max_distance: u32,
        directions: &[Coord],
        is_airborne: bool,
        kinds: &HashMap<u64, Terrain>,
    ) -> (r: Vec<Coord>)
        requires
            self.wf(),
            in_bounds(self.size, start),
        ensures
            r@.to_set() == self.reach(
                kinds@,
                directions@,
                Passage::Mover(is_airborne),
                set![start],
                max_distance as nat,
            ),
            r@.no_duplicates(),
    {
        let sources = vec![start];
        proof {
            assert(sources@.to_set() =~= set![start]) by {
                assert(sources@[0] == start);
            }
        }
        let (_, found) = self.spread(
            kinds,
            directions,
            Passage::Mover(is_airborne),
            &sources,
            max_distance as u64,
        );
        found
    }

    /// Recomputes the heat map: for every cell, the fewest rook moves to the
    /// nearest occupied cell, ignoring obstacles and terrain; 0 everywhere when
    /// nothing is occupied.
    pub fn generate_heat_map(&mut self)
        requires
            old(self).wf(),
        ensures
            final(self).wf(),
            final(self).size == old(self).size,
            final(self).terrain@ == old(self).terrain@,
            final(self).object@ == old(self).object@,
            final(self).deployment_zone@ == old(self).deployment_zone@,
            final(self).heat_ready(),
            forall|c: Coord|
                in_bounds(final(self).size, c) ==> heat_of(
                    final(self).object@.dom(),
                    c,
                    #[trigger] at_cell(final(self).heat_map@, final(self).size, c) as int,
                ),
    {
        let ghost size = self.size;
        let ghost occupied = self.object@.dom();
        let n: usize = self.size.x as usize * self.size.y as usize;
        let occupants = self.object.positions();
        let mut heat: Vec<u32> = Vec::new();
        if occupants.len() == 0 {
            while heat.len() < n
                invariant
                    heat@.len() <= n,
                    forall|i: int| 0 <= i < heat@.len() ==> heat@[i] == 0,
                decreases n - heat@.len(),
            {
                heat.push(0);
            }
            proof {
                assert(occupied.is_empty()) by {
                    assert forall|o: Coord| !occupied.contains(o) by {
                        if occupied.contains(o) {
                            assert(occupants@.to_set().contains(o));
                        }
                    }
                }
                assert forall|c: Coord| in_bounds(size, c) implies heat_of(
                    occupied,
                    c,
                    #[trigger] at_cell(heat@, size, c) as int,
                ) by {
                    lemma_cell_index_bounds(size, c);
                }
            }
        } else {
            let kinds: HashMap<u64, Terrain> = HashMap::new();
            let rook = rook_moves();
            let max_distance: u64 = 0xffff_ffff;
            proof {
                assert forall|i: int| 0 <= i < occupants@.len() implies in_bounds(
                    size,
                    #[trigger] occupants@[i],
                ) by {
                    assert(occupants@.to_set().contains(occupants@[i]));
                }
            }
            let (dist, _) = self.spread(
                &kinds,
                rook.as_slice(),
                Passage::Unrestricted,
                &occupants,
                max_distance,
            );
            while heat.len() < n
                invariant
                    heat@.len() <= n,
                    dist@.len() == n,
                    forall|i: int|
                        0 <= i < heat@.len() ==> heat@[i] == (if dist@[i] > 0xffff_ffff {
                            0xffff_ffffu32
                        } else {
                            dist@[i] as u32
                        }),
                decreases n - heat@.len(),
            {
                let v = dist[heat.len()];
                heat.push(if v > 0xffff_ffff { u32::MAX } else { v as u32 });
            }
            proof {
                let kv = kinds@;
                let rule = Passage::Unrestricted;
                assert(occupants@.to_set() == occupied);
                assert(rook@ == rook_seq());
                self.lemma_free_reach_is_manhattan(kv, occupied, max_distance as nat);
                assert(forall|o: Coord| occupied.contains(o) ==> in_bounds(size, o));
                assert forall|c: Coord| in_bounds(size, c) implies heat_of(
                    occupied,
                    c,
                    #[trigger] at_cell(heat@, size, c) as int,
                ) by {
                    lemma_cell_index_bounds(size, c);
                    let o = occupants@[0];
                    assert(occupied.contains(o));
                    assert(manhattan(c, o) <= max_distance);
                    assert(self.reach(kv, rook_seq(), rule, occupied, max_distance as nat).contains(c));
                    let d = at_cell(dist@, size, c);
                    assert(d != UNVISITED);
                    assert(at_cell(heat@, size, c) == d);
                    self.lemma_nearest_from_reach(kv, occupied, c, d as nat);
                }
            }
        }
        self.heat_map = heat;
    }
}

} // verus!
