//! Goal-directed search between two cells, through pathfinding's A*.
use vstd::prelude::*;
use std::collections::HashMap;
use pathfinding::directed::astar::astar;

use crate::coord::{Coord, checked_shift, distance_squared, in_bounds, rook_seq};
use crate::village_map::{Passage, Terrain, VillageMap};

verus! {

impl VillageMap {
    /// `path` leads from `start` to `target`, one move under `rule` at a time.
    pub open spec fn is_path(
        &self,
        kinds: Map<u64, Terrain>,
        dirs: Seq<Coord>,
        rule: Passage,
        path: Seq<Coord>,
        start: Coord,
        target: Coord,
    ) -> bool {
        &&& path.len() >= 1
        &&& path[0] == start
        &&& path.last() == target
        &&& forall|i: int|
            0 <= i < path.len() - 1 ==> #[trigger] self.step(kinds, dirs, rule, path[i], path[i + 1])
    }

    /// Every legal move from `c` along `directions`, each with cost one.
    pub fn moves_from(
        &self,
        c: Coord,
        directions: &[Coord],
        is_airborne: bool,
        kinds: &HashMap<u64, Terrain>,
    ) -> (r: Vec<(Coord, u128)>)
        ensures
            forall|i: int|
                0 <= i < r@.len() ==> (#[trigger] r@[i]).1 == 1 && self.step(
                    kinds@,
                    directions@,
                    Passage::Mover(is_airborne),
                    c,
                    r@[i].0,
                ),
            forall|q: Coord|
                self.step(kinds@, directions@, Passage::Mover(is_airborne), c, q) ==> exists|i: int|
                    0 <= i < r@.len() && (#[trigger] r@[i]).0 == q,
    {
        let ghost rule = Passage::Mover(is_airborne);
        let mut r: Vec<(Coord, u128)> = Vec::new();
        let mut j: usize = 0;
        while j < directions.len()
            invariant
                j <= directions@.len(),
                rule == Passage::Mover(is_airborne),
                forall|i: int|
                    0 <= i < r@.len() ==> (#[trigger] r@[i]).1 == 1 && self.step(
                        kinds@,
                        directions@,
                        rule,
                        c,
                        r@[i].0,
                    ),
                forall|jj: int, q: Coord|
                    #![trigger directions@[jj], self.enterable(kinds@, rule, q)]
                    0 <= jj < j && q.x == c.x + directions@[jj].x && q.y == c.y + directions@[jj].y
                        && self.enterable(kinds@, rule, q) ==> exists|i: int|
                        0 <= i < r@.len() && (#[trigger] r@[i]).0 == q,
            decreases directions@.len() - j,
        {
            let ghost old_r = r@;
            match checked_shift(c, directions[j]) {
                Some(q) => {
                    if self.can_enter(kinds, Passage::Mover(is_airborne), q) {
                        r.push((q, 1));
                        proof {
                            assert(self.step(kinds@, directions@, rule, c, q));
                            assert(r@[old_r.len() as int].0 == q);
                            assert forall|jj: int, q2: Coord|
                                #![trigger directions@[jj], self.enterable(kinds@, rule, q2)]
                                0 <= jj < j && q2.x == c.x + directions@[jj].x && q2.y == c.y
                                    + directions@[jj].y && self.enterable(kinds@, rule, q2)
                                    implies exists|i: int| 0 <= i < r@.len() && (#[trigger] r@[i]).0 == q2 by {
                                let i = choose|i: int| 0 <= i < old_r.len() && (#[trigger] old_r[i]).0 == q2;
                                assert(r@[i] == old_r[i]);
                            }
                        }
                    }
                },
                None => {},
            }
            j += 1;
        }
        proof {
            assert forall|q: Coord| self.step(kinds@, directions@, rule, c, q) implies exists|i: int|
                0 <= i < r@.len() && (#[trigger] r@[i]).0 == q by {
                let jj = choose|jj: int|
                    0 <= jj < directions@.len() && q.x == c.x + directions@[jj].x && q.y == c.y
                        + directions@[jj].y;
                assert(directions@[jj] == directions@[jj]);
            }
        }
        r
    }

    /// A shortest-looking path from `start` to `target` through free cells that
    /// the mover can stand on, with its cost: one per move. `None` exactly when
    /// no such path exists.
    pub fn pathfind(
        &self,
        start: &Coord,
        target: &Coord,
        directions: &[Coord],
        is_airborne: bool,
        kinds: &HashMap<u64, Terrain>,
    ) -> (r: Option<(Vec<Coord>, usize)>)
        requires
            self.wf(),
        ensures
            match r {
                Some((path, cost)) => {
                    &&& self.is_path(kinds@, directions@, Passage::Mover(is_airborne), path@, *start, *target)
                    &&& path@.no_duplicates()
                    &&& cost == path@.len() - 1
                    &&& (*start == *target ==> path@ == seq![*start] && cost == 0)
                },
                None => forall|p: Seq<Coord>|
                    !self.is_path(kinds@, directions@, Passage::Mover(is_airborne), p, *start, *target),
            },
    {
        match astar_path(self, *start, *target, directions, is_airborne, kinds) {
            Some(path) => {
                let cost = path.len() - 1;
                proof {
                    if *start == *target && path@.len() > 1 {
                        assert(path@[0] == path@[path@.len() - 1]);
                    }
                    if *start == *target {
                        assert(path@ =~= seq![*start]);
                    }
                }
                Some((path, cost))
            },
            None => None,
        }
    }
    /// A target whose rook neighbours on the board are all occupied cannot be
    /// reached with rook moves from any other cell that is not one of those
    /// neighbours.
    pub proof fn lemma_blocked_target(
        &self,
        kinds: Map<u64, Terrain>,
        is_airborne: bool,
        start: Coord,
        target: Coord,
    )
        requires
            forall|i: int|
                0 <= i < 4 ==> {
                    let nb = #[trigger] rook_seq()[i];
                    forall|q: Coord|
                        q.x == target.x + nb.x && q.y == target.y + nb.y && in_bounds(self.size, q)
                            ==> self.object@.contains_key(q)
                },
            start != target,
            forall|i: int|
                0 <= i < 4 ==> !(start.x == target.x + (#[trigger] rook_seq()[i]).x && start.y
                    == target.y + rook_seq()[i].y),
        ensures
            forall|p: Seq<Coord>|
                !self.is_path(kinds, rook_seq(), Passage::Mover(is_airborne), p, start, target),
    {
        let dirs = rook_seq();
        let rule = Passage::Mover(is_airborne);
        assert forall|p: Seq<Coord>| !self.is_path(kinds, dirs, rule, p, start, target) by {
            if self.is_path(kinds, dirs, rule, p, start, target) {
                let n = p.len() as int;
                assert(n >= 2);
                let u = p[n - 2];
                assert(self.step(kinds, dirs, rule, p[n - 2], p[n - 2 + 1]));
                let k = choose|k: int|
                    0 <= k < dirs.len() && target.x == u.x + dirs[k].x && target.y == u.y + dirs[k].y;
                let back = if k == 0 { 2int } else if k == 1 { 3int } else if k == 2 { 0int } else { 1int };
                assert(u.x == target.x + dirs[back].x && u.y == target.y + dirs[back].y);
                if n == 2 {
                    assert(u == start);
                } else {
                    assert(self.step(kinds, dirs, rule, p[n - 3], p[n - 3 + 1]));
                    assert(in_bounds(self.size, u));
                    assert(self.object@.contains_key(u));
                }
            }
        }
    }

    /// A mover that does not fly never steps onto water.
    pub proof fn lemma_ground_path_avoids_water(
        &self,
        kinds: Map<u64, Terrain>,
        dirs: Seq<Coord>,
        path: Seq<Coord>,
        start: Coord,
        target: Coord,
    )
        requires
            self.is_path(kinds, dirs, Passage::Mover(false), path, start, target),
        ensures
            forall|i: int|
                1 <= i < path.len() ==> self.terrain_at(kinds, #[trigger] path[i]) != Some(
                    Terrain::Water,
                ),
    {
        assert forall|i: int| 1 <= i < path.len() implies self.terrain_at(kinds, #[trigger] path[i])
            != Some(Terrain::Water) by {
            assert(self.step(kinds, dirs, Passage::Mover(false), path[i - 1], path[i - 1 + 1]));
        }
    }
}

/// The goal test of the search: `p` is the target cell.
fn is_target(p: Coord, t: Coord) -> (r: bool)
    ensures
        r == (p == t),
{
    p == t
}

/// Relies on pathfinding's `astar`: searching from `start` with the board's legal
/// moves as successors, it returns a path whose first cell is `start`, whose last
/// is `target`, and whose every next cell is a successor of the one before; it
/// returns `None` only when no such path exists, since it goes through every
/// cell that can be reached before it gives up. No cell occurs twice on the path:
/// each parent link leads to a cell of strictly lower cost.
#[verifier::external_body]
fn astar_path(
    map: &VillageMap,
    start: Coord,
    target: Coord,
    directions: &[Coord],
    is_airborne: bool,
    kinds: &HashMap<u64, Terrain>,
) -> (r: Option<Vec<Coord>>)
    requires
        map.wf(),
    ensures
        match r {
            Some(path) => {
                &&& map.is_path(kinds@, directions@, Passage::Mover(is_airborne), path@, start, target)
                &&& path@.no_duplicates()
            },
            None => forall|p: Seq<Coord>|
                !map.is_path(kinds@, directions@, Passage::Mover(is_airborne), p, start, target),
        },
{
    astar(
        &start,
        |p: &Coord| map.moves_from(*p, directions, is_airborne, kinds),
        |p: &Coord| distance_squared(*p, target),
        |p: &Coord| is_target(*p, target),
    ).map(|(path, _)| path)
}

} // verus!
