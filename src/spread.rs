//! Breadth-first spreading over the board, in layers of equal distance.
use vstd::prelude::*;
use std::collections::HashMap;
use std::collections::VecDeque;

use crate::coord::{Coord, checked_shift, in_bounds};
use crate::village_map::{
    Passage, Terrain, VillageMap, at_cell, cell_index, lemma_cell_index_bounds,
    lemma_cell_index_injective,
};

verus! {

/// Distance of a cell that a search has not reached.
pub const UNVISITED: u64 = 0xffff_ffff_ffff_ffff;

/// Number of entries of `s` that are still `UNVISITED`.
pub open spec fn unvisited_count(s: Seq<u64>) -> nat
    decreases s.len(),
{
    if s.len() == 0 {
        0
    } else {
        unvisited_count(s.drop_last()) + (if s.last() == UNVISITED { 1nat } else { 0nat })
    }
}

proof fn lemma_unvisited_update(s: Seq<u64>, k: int, v: u64)
    requires
        0 <= k < s.len(),
        s[k] == UNVISITED,
        v != UNVISITED,
    ensures
        unvisited_count(s.update(k, v)) + 1 == unvisited_count(s),
    decreases s.len(),
{
    let t = s.update(k, v);
    if k == s.len() - 1 {
        assert(t.drop_last() =~= s.drop_last());
    } else {
        assert(t.drop_last() =~= s.drop_last().update(k, v));
        lemma_unvisited_update(s.drop_last(), k, v);
    }
}

proof fn lemma_push_contains(s: Seq<Coord>, x: Coord)
    ensures
        forall|y: Coord| #[trigger] s.push(x).contains(y) <==> s.contains(y) || y == x,
{
    assert forall|y: Coord| #[trigger] s.push(x).contains(y) <==> s.contains(y) || y == x by {
        if s.contains(y) {
            let w = choose|w: int| 0 <= w < s.len() && s[w] == y;
            assert(s.push(x)[w] == y);
        }
        if y == x {
            assert(s.push(x)[s.len() as int] == y);
        }
        if s.push(x).contains(y) && y != x {
            let w = choose|w: int| 0 <= w < s.len() + 1 && s.push(x)[w] == y;
            assert(s[w] == y);
        }
    }
}

/// Writing `v` at the index of `n` changes the entry of `n` alone.
proof fn lemma_update_cell(a: Seq<u64>, size: Coord, n: Coord, v: u64)
    requires
        size.x > 0,
        size.y > 0,
        a.len() == size.x * size.y,
        in_bounds(size, n),
    ensures
        forall|c: Coord|
            in_bounds(size, c) ==> #[trigger] at_cell(a.update(cell_index(size, n), v), size, c)
                == if c == n { v } else { at_cell(a, size, c) },
{
    assert forall|c: Coord| in_bounds(size, c) implies #[trigger] at_cell(
        a.update(cell_index(size, n), v),
        size,
        c,
    ) == if c == n { v } else { at_cell(a, size, c) } by {
        lemma_cell_index_bounds(size, c);
        lemma_cell_index_bounds(size, n);
        if c != n && cell_index(size, c) == cell_index(size, n) {
            lemma_cell_index_injective(size, c, n);
        }
    }
}

impl VillageMap {
    /// The cells one move away from some cell of `s`.
    pub open spec fn next_of(
        &self,
        kinds: Map<u64, Terrain>,
        dirs: Seq<Coord>,
        rule: Passage,
        s: Set<Coord>,
    ) -> Set<Coord> {
        Set::new(|q: Coord| exists|p: Coord| #[trigger] s.contains(p) && self.step(kinds, dirs, rule, p, q))
    }

    /// The cells reachable from `sources` in at most `k` moves.
    pub open spec fn reach(
        &self,
        kinds: Map<u64, Terrain>,
        dirs: Seq<Coord>,
        rule: Passage,
        sources: Set<Coord>,
        k: nat,
    ) -> Set<Coord>
        decreases k,
    {
        if k == 0 {
            sources
        } else {
            let prev = self.reach(kinds, dirs, rule, sources, (k - 1) as nat);
            prev.union(self.next_of(kinds, dirs, rule, prev))
        }
    }

    /// `c` is reachable in `d` moves and in no fewer.
    pub open spec fn at_distance(
        &self,
        kinds: Map<u64, Terrain>,
        dirs: Seq<Coord>,
        rule: Passage,
        sources: Set<Coord>,
        c: Coord,
        d: nat,
    ) -> bool {
        &&& self.reach(kinds, dirs, rule, sources, d).contains(c)
        &&& (d == 0 || !self.reach(kinds, dirs, rule, sources, (d - 1) as nat).contains(c))
    }

    pub proof fn lemma_reach_mono(
        &self,
        kinds: Map<u64, Terrain>,
        dirs: Seq<Coord>,
        rule: Passage,
        sources: Set<Coord>,
        a: nat,
        b: nat,
    )
        requires
            a <= b,
        ensures
            self.reach(kinds, dirs, rule, sources, a).subset_of(
                self.reach(kinds, dirs, rule, sources, b),
            ),
        decreases b,
    {
        if a < b {
            self.lemma_reach_mono(kinds, dirs, rule, sources, a, (b - 1) as nat);
        }
    }

    pub proof fn lemma_reach_step(
        &self,
        kinds: Map<u64, Terrain>,
        dirs: Seq<Coord>,
        rule: Passage,
        sources: Set<Coord>,
        k: nat,
        p: Coord,
        q: Coord,
    )
        requires
            self.reach(kinds, dirs, rule, sources, k).contains(p),
            self.step(kinds, dirs, rule, p, q),
        ensures
            self.reach(kinds, dirs, rule, sources, k + 1).contains(q),
    {
        let prev = self.reach(kinds, dirs, rule, sources, k);
        assert(self.next_of(kinds, dirs, rule, prev).contains(q));
    }

    pub proof fn lemma_reach_in_bounds(
        &self,
        kinds: Map<u64, Terrain>,
        dirs: Seq<Coord>,
        rule: Passage,
        sources: Set<Coord>,
        k: nat,
    )
        requires
            forall|c: Coord| sources.contains(c) ==> in_bounds(self.size, c),
        ensures
            forall|c: Coord|
                #[trigger] self.reach(kinds, dirs, rule, sources, k).contains(c) ==> in_bounds(
                    self.size,
                    c,
                ),
        decreases k,
    {
        if k > 0 {
            let prev = self.reach(kinds, dirs, rule, sources, (k - 1) as nat);
            self.lemma_reach_in_bounds(kinds, dirs, rule, sources, (k - 1) as nat);
            assert forall|c: Coord| #[trigger]
                self.reach(kinds, dirs, rule, sources, k).contains(c) implies in_bounds(
                self.size,
                c,
            ) by {
                if !prev.contains(c) {
                    assert(self.next_of(kinds, dirs, rule, prev).contains(c));
                    let p = choose|p: Coord| #[trigger]
                        prev.contains(p) && self.step(kinds, dirs, rule, p, c);
                }
            }
        }
    }

    pub proof fn lemma_reach_stable(
        &self,
        kinds: Map<u64, Terrain>,
        dirs: Seq<Coord>,
        rule: Passage,
        sources: Set<Coord>,
        d: nat,
        m: nat,
    )
        requires
            d <= m,
            self.reach(kinds, dirs, rule, sources, d + 1) == self.reach(
                kinds,
                dirs,
                rule,
                sources,
                d,
            ),
        ensures
            self.reach(kinds, dirs, rule, sources, m) == self.reach(kinds, dirs, rule, sources, d),
        decreases m,
    {
        if m > d + 1 {
            self.lemma_reach_stable(kinds, dirs, rule, sources, d, (m - 1) as nat);
        }
    }
    /// Breadth-first spread from `sources` along `dirs` under `rule`, at most
    /// `max_distance` moves deep. Returns the distance of every cell, `UNVISITED`
    /// for those out of reach, and the reached cells in the order they were found.
    pub fn spread(
        &self,
        kinds: &HashMap<u64, Terrain>,
        dirs: &[Coord],
        rule: Passage,
        sources: &Vec<Coord>,
        max_distance: u64,
    ) -> (r: (Vec<u64>, Vec<Coord>))
        requires
            self.wf(),
            forall|i: int| 0 <= i < sources@.len() ==> in_bounds(self.size, #[trigger] sources@[i]),
            max_distance < UNVISITED,
        ensures
            r.0@.len() == self.size.x * self.size.y,
            forall|c: Coord|
                in_bounds(self.size, c) ==> (#[trigger] at_cell(r.0@, self.size, c) != UNVISITED
                    <==> self.reach(kinds@, dirs@, rule, sources@.to_set(), max_distance as nat).contains(c)),
            forall|c: Coord|
                in_bounds(self.size, c) && #[trigger] at_cell(r.0@, self.size, c) != UNVISITED
                    ==> self.at_distance(kinds@, dirs@, rule, sources@.to_set(), c, at_cell(r.0@, self.size, c) as nat)
                    && at_cell(r.0@, self.size, c) <= max_distance,
            r.1@.to_set() == self.reach(kinds@, dirs@, rule, sources@.to_set(), max_distance as nat),
            r.1@.no_duplicates(),
    {
        let ghost kv = kinds@;
        let ghost dv = dirs@;
        let ghost src = sources@.to_set();
        let ghost size = self.size;
        proof {
            assert forall|c: Coord| src.contains(c) implies in_bounds(size, c) by {
                let i = choose|i: int| 0 <= i < sources@.len() && sources@[i] == c;
            }
            self.lemma_reach_in_bounds(kv, dv, rule, src, 0);
        }
        let n: usize = self.size.x as usize * self.size.y as usize;
        let mut dist: Vec<u64> = Vec::new();
        while dist.len() < n
            invariant
                dist@.len() <= n,
                forall|i: int| 0 <= i < dist@.len() ==> dist@[i] == UNVISITED,
            decreases n - dist@.len(),
        {
            dist.push(UNVISITED);
        }
        let mut queue: VecDeque<Coord> = VecDeque::new();
        let mut found: Vec<Coord> = Vec::new();
        let mut s: usize = 0;
        proof {
            assert forall|c: Coord| in_bounds(size, c) implies #[trigger] at_cell(dist@, size, c)
                == UNVISITED by {
                lemma_cell_index_bounds(size, c);
            }
            assert(sources@.subrange(0, 0) =~= Seq::<Coord>::empty());
        }
        while s < sources.len()
            invariant
                self.wf(),
                size == self.size,
                dv == dirs@,
                kv == kinds@,
                n == size.x * size.y,
                dist@.len() == n,
                s <= sources@.len(),
                forall|i: int| 0 <= i < sources@.len() ==> in_bounds(size, #[trigger] sources@[i]),
                forall|c: Coord|
                    in_bounds(size, c) ==> (#[trigger] at_cell(dist@, size, c) == 0 || at_cell(
                        dist@,
                        size,
                        c,
                    ) == UNVISITED),
                forall|c: Coord|
                    in_bounds(size, c) ==> (#[trigger] at_cell(dist@, size, c) == 0
                        <==> sources@.subrange(0, s as int).contains(c)),
                forall|i: int|
                    0 <= i < queue@.len() ==> in_bounds(size, #[trigger] queue@[i]) && at_cell(
                        dist@,
                        size,
                        queue@[i],
                    ) == 0,
                forall|c: Coord|
                    in_bounds(size, c) && #[trigger] at_cell(dist@, size, c) == 0 ==> queue@.contains(c),
                forall|c: Coord|
                    #[trigger] found@.contains(c) <==> in_bounds(size, c) && at_cell(dist@, size, c)
                        != UNVISITED,
                found@.no_duplicates(),
            decreases sources@.len() - s,
        {
            let c = sources[s];
            let k = self.index_of(c);
            proof {
                assert(sources@.subrange(0, s as int + 1) =~= sources@.subrange(0, s as int).push(c));
                lemma_push_contains(sources@.subrange(0, s as int), c);
                lemma_push_contains(found@, c);
            }
            let ghost old_q = queue@;
            if dist[k] == UNVISITED {
                proof {
                    lemma_update_cell(dist@, size, c, 0);
                    assert(!found@.contains(c));
                }
                dist.set(k, 0);
                queue.push_back(c);
                found.push(c);
                proof {
                    assert forall|c2: Coord| #[trigger] found@.contains(c2) <==> in_bounds(size, c2)
                        && at_cell(dist@, size, c2) != UNVISITED by {
                        if in_bounds(size, c2) {
                            assert(at_cell(dist@, size, c2) == at_cell(dist@, size, c2));
                        }
                    }
                    assert forall|c2: Coord| in_bounds(size, c2) && #[trigger] at_cell(dist@, size, c2)
                        == 0 implies queue@.contains(c2) by {
                        if c2 != c {
                            assert(old_q.contains(c2));
                            let w = choose|w: int| 0 <= w < old_q.len() && old_q[w] == c2;
                            assert(queue@[w] == c2);
                        } else {
                            assert(queue@[queue@.len() - 1] == c);
                        }
                    }
                }
            } else {
                assert(at_cell(dist@, size, c) == 0);
            }
            s += 1;
        }
        proof {
            assert(sources@.subrange(0, sources@.len() as int) =~= sources@);
        }
        let mut depth: u64 = 0;
        let mut layer: usize = queue.len();
        while layer > 0 && depth < max_distance
            invariant
                self.wf(),
                size == self.size,
                dv == dirs@,
                kv == kinds@,
                n == size.x * size.y,
                dist@.len() == n,
                max_distance < UNVISITED,
                depth <= max_distance,
                layer == queue@.len(),
                forall|c: Coord| src.contains(c) ==> in_bounds(size, c),
                forall|c: Coord|
                    in_bounds(size, c) ==> (#[trigger] at_cell(dist@, size, c) != UNVISITED
                        <==> self.reach(kv, dv, rule, src, depth as nat).contains(c)),
                forall|c: Coord|
                    in_bounds(size, c) && #[trigger] at_cell(dist@, size, c) != UNVISITED
                        ==> at_cell(dist@, size, c) <= depth && self.at_distance(kv, dv, rule, src, c, at_cell(dist@, size, c) as nat),
                forall|i: int|
                    0 <= i < queue@.len() ==> in_bounds(size, #[trigger] queue@[i]) && at_cell(
                        dist@,
                        size,
                        queue@[i],
                    ) == depth,
                forall|c: Coord|
                    in_bounds(size, c) && #[trigger] at_cell(dist@, size, c) == depth ==> queue@.contains(c),
                forall|c: Coord|
                    #[trigger] found@.contains(c) <==> in_bounds(size, c) && at_cell(dist@, size, c)
                        != UNVISITED,
                found@.no_duplicates(),
            decreases unvisited_count(dist@) + layer,
        {
            let ghost frontier = queue@;
            let ghost count0 = unvisited_count(dist@);
            let ghost d = depth as nat;
            let mut i: usize = 0;
            while i < layer
                invariant
                    self.wf(),
                    size == self.size,
                    dv == dirs@,
                    kv == kinds@,
                    n == size.x * size.y,
                    dist@.len() == n,
                    depth < max_distance,
                    max_distance < UNVISITED,
                    d == depth,
                    layer == frontier.len(),
                    i <= layer,
                    forall|c: Coord| src.contains(c) ==> in_bounds(size, c),
                    queue@.len() >= layer - i,
                    queue@.subrange(0, layer - i) == frontier.subrange(i as int, layer as int),
                    forall|a: int|
                        0 <= a < frontier.len() ==> in_bounds(size, #[trigger] frontier[a]) && self.reach(kv, dv, rule, src, d).contains(frontier[a]),
                    forall|c: Coord|
                        in_bounds(size, c) && #[trigger] at_cell(dist@, size, c) == depth ==> frontier.contains(c),
                    forall|a: int|
                        layer - i <= a < queue@.len() ==> in_bounds(size, #[trigger] queue@[a])
                            && at_cell(dist@, size, queue@[a]) == depth + 1,
                    forall|c: Coord|
                        in_bounds(size, c) && #[trigger] at_cell(dist@, size, c) == depth + 1
                            ==> queue@.subrange(layer - i, queue@.len() as int).contains(c),
                    unvisited_count(dist@) + (queue@.len() - (layer - i)) == count0,
                    forall|c: Coord|
                        in_bounds(size, c) ==> ((#[trigger] at_cell(dist@, size, c) != UNVISITED
                            && at_cell(dist@, size, c) <= depth)
                            <==> self.reach(kv, dv, rule, src, d).contains(c)),
                    forall|c: Coord|
                        in_bounds(size, c) && #[trigger] at_cell(dist@, size, c) != UNVISITED
                            ==> at_cell(dist@, size, c) <= depth + 1 && self.at_distance(kv, dv, rule, src, c, at_cell(dist@, size, c) as nat),
                    forall|a: int, q: Coord|
                        #![trigger frontier[a], at_cell(dist@, size, q)]
                        0 <= a < i && self.step(kv, dv, rule, frontier[a], q)
                            ==> at_cell(dist@, size, q) != UNVISITED,
                    forall|c: Coord|
                        #[trigger] found@.contains(c) <==> in_bounds(size, c) && at_cell(dist@, size, c)
                            != UNVISITED,
                    found@.no_duplicates(),
                decreases layer - i,
            {
                let ghost old_q = queue@;
                let c = queue.pop_front().unwrap();
                proof {
                    assert(old_q[0] == old_q.subrange(0, layer - i)[0]);
                    assert(c == frontier[i as int]);
                    assert(queue@ == old_q.subrange(1, old_q.len() as int));
                    assert forall|t: int| 0 <= t < layer - i - 1 implies queue@[t] == frontier[i + 1 + t] by {
                        assert(old_q.subrange(0, layer - i)[t + 1] == frontier.subrange(i as int, layer as int)[t + 1]);
                    }
                    assert(queue@.subrange(0, layer - i - 1) =~= frontier.subrange(i + 1, layer as int));
                    assert(queue@.subrange(layer - i - 1, queue@.len() as int)
                        =~= old_q.subrange(layer - i, old_q.len() as int));
                }
                let mut j: usize = 0;
                while j < dirs.len()
                    invariant
                        self.wf(),
                        size == self.size,
                        kv == kinds@,
                        n == size.x * size.y,
                        dist@.len() == n,
                        depth < max_distance,
                        max_distance < UNVISITED,
                        d == depth,
                        layer == frontier.len(),
                        i < layer,
                        c == frontier[i as int],
                        j <= dv.len(),
                        dv == dirs@,
                        in_bounds(size, c),
                        self.reach(kv, dv, rule, src, d).contains(c),
                        forall|c: Coord| src.contains(c) ==> in_bounds(size, c),
                        queue@.len() >= layer - i - 1,
                        queue@.subrange(0, layer - i - 1) == frontier.subrange(i + 1, layer as int),
                        forall|a: int|
                            0 <= a < frontier.len() ==> in_bounds(size, #[trigger] frontier[a]) && self.reach(kv, dv, rule, src, d).contains(frontier[a]),
                        forall|c: Coord|
                            in_bounds(size, c) && #[trigger] at_cell(dist@, size, c) == depth ==> frontier.contains(c),
                        forall|a: int|
                            layer - i - 1 <= a < queue@.len() ==> in_bounds(size, #[trigger] queue@[a])
                                && at_cell(dist@, size, queue@[a]) == depth + 1,
                        forall|c: Coord|
                            in_bounds(size, c) && #[trigger] at_cell(dist@, size, c) == depth + 1
                                ==> queue@.subrange(layer - i - 1, queue@.len() as int).contains(c),
                        unvisited_count(dist@) + (queue@.len() - (layer - i - 1)) == count0,
                        forall|c: Coord|
                            in_bounds(size, c) ==> ((#[trigger] at_cell(dist@, size, c) != UNVISITED
                                && at_cell(dist@, size, c) <= depth)
                                <==> self.reach(kv, dv, rule, src, d).contains(c)),
                        forall|c: Coord|
                            in_bounds(size, c) && #[trigger] at_cell(dist@, size, c) != UNVISITED
                                ==> at_cell(dist@, size, c) <= depth + 1 && self.at_distance(kv, dv, rule, src, c, at_cell(dist@, size, c) as nat),
                        forall|a: int, q: Coord|
                            #![trigger frontier[a], at_cell(dist@, size, q)]
                            0 <= a < i && self.step(kv, dv, rule, frontier[a], q)
                                ==> at_cell(dist@, size, q) != UNVISITED,
                        forall|jj: int, q: Coord|
                            #![trigger dv[jj], at_cell(dist@, size, q)]
                            0 <= jj < j && q.x == c.x + dv[jj].x && q.y == c.y + dv[jj].y
                                && self.enterable(kv, rule, q)
                                ==> at_cell(dist@, size, q) != UNVISITED,
                        forall|c: Coord|
                            #[trigger] found@.contains(c) <==> in_bounds(size, c) && at_cell(dist@, size, c)
                                != UNVISITED,
                        found@.no_duplicates(),
                    decreases dv.len() - j,
                {
                    match checked_shift(c, dirs[j]) {
                        Some(q) => {
                            if self.can_enter(kinds, rule, q) {
                                let k = self.index_of(q);
                                if dist[k] == UNVISITED {
                                    proof {
                                        assert(at_cell(dist@, size, q) == UNVISITED);
                                        assert(!found@.contains(q));
                                        lemma_push_contains(found@, q);
                                        assert(self.step(kv, dv, rule, c, q));
                                        self.lemma_reach_step(kv, dv, rule, src, d, c, q);
                                        assert(!self.reach(kv, dv, rule, src, d).contains(q));
                                        lemma_update_cell(dist@, size, q, (depth + 1) as u64);
                                        lemma_unvisited_update(dist@, k as int, (depth + 1) as u64);
                                    }
                                    let ghost old_queue = queue@;
                                    dist.set(k, depth + 1);
                                    queue.push_back(q);
                                    found.push(q);
                                    proof {
                                        assert(queue@.subrange(0, layer - i - 1) =~= old_queue.subrange(0, layer - i - 1));
                                        let tail0 = old_queue.subrange(layer - i - 1, old_queue.len() as int);
                                        let tail1 = queue@.subrange(layer - i - 1, queue@.len() as int);
                                        assert(tail1 =~= tail0.push(q));
                                        assert forall|c2: Coord| #[trigger] found@.contains(c2) <==> in_bounds(size, c2)
                                            && at_cell(dist@, size, c2) != UNVISITED by {
                                            if in_bounds(size, c2) {
                                                assert(at_cell(dist@, size, c2) == at_cell(dist@, size, c2));
                                            }
                                        }
                                        assert forall|c2: Coord| in_bounds(size, c2) && #[trigger] at_cell(dist@, size, c2)
                                            == depth + 1 implies tail1.contains(c2) by {
                                            if c2 != q {
                                                assert(tail0.contains(c2));
                                                let w = choose|w: int| 0 <= w < tail0.len() && tail0[w] == c2;
                                                assert(tail1[w] == c2);
                                            } else {
                                                assert(tail1[tail1.len() - 1] == q);
                                            }
                                        }
                                    }
                                }
                            }
                        },
                        None => {},
                    }
                    j += 1;
                }
                proof {
                    assert forall|a: int, q: Coord|
                        #![trigger frontier[a], at_cell(dist@, size, q)]
                        0 <= a < i + 1 && self.step(kv, dv, rule, frontier[a], q)
                            implies at_cell(dist@, size, q) != UNVISITED by {
                        if a == i {
                            let jj = choose|jj: int|
                                0 <= jj < dv.len() && q.x == c.x + dv[jj].x && q.y == c.y + dv[jj].y;
                            assert(dv[jj] == dv[jj]);
                        }
                    }
                }
                i += 1;
            }
            proof {
                let d1 = (d + 1) as nat;
                self.lemma_reach_mono(kv, dv, rule, src, d, d1);
                self.lemma_reach_in_bounds(kv, dv, rule, src, d);
                assert forall|c: Coord| in_bounds(size, c) implies (#[trigger] at_cell(dist@, size, c) != UNVISITED
                        <==> self.reach(kv, dv, rule, src, d1).contains(c)) by {
                    if self.reach(kv, dv, rule, src, d1).contains(c) && !self.reach(kv, dv, rule, src, d).contains(c) {
                        let prev = self.reach(kv, dv, rule, src, d);
                        assert(self.next_of(kv, dv, rule, prev).contains(c));
                        let p = choose|p: Coord| #[trigger] prev.contains(p) && self.step(kv, dv, rule, p, c);
                        assert(in_bounds(size, p));
                        let e = at_cell(dist@, size, p);
                        if e == depth {
                            assert(frontier.contains(p));
                            let a = choose|a: int| 0 <= a < frontier.len() && frontier[a] == p;
                            assert(at_cell(dist@, size, c) != UNVISITED);
                        } else {
                            self.lemma_reach_step(kv, dv, rule, src, e as nat, p, c);
                            self.lemma_reach_mono(kv, dv, rule, src, (e + 1) as nat, d);
                        }
                    }
                }
                assert(queue@.subrange(0, queue@.len() as int) =~= queue@);
            }
            depth = depth + 1;
            layer = queue.len();
        }
        proof {
            let dn = depth as nat;
            if depth < max_distance {
                if dn == 0 {
                    assert(src =~= Set::<Coord>::empty()) by {
                        assert forall|c: Coord| !src.contains(c) by {
                            if src.contains(c) {
                                assert(at_cell(dist@, size, c) != UNVISITED);
                            }
                        }
                    }
                    assert(self.next_of(kv, dv, rule, src) =~= Set::<Coord>::empty());
                    assert(self.reach(kv, dv, rule, src, 1) =~= self.reach(kv, dv, rule, src, 0));
                    self.lemma_reach_stable(kv, dv, rule, src, 0, max_distance as nat);
                } else {
                    let dp = (dn - 1) as nat;
                    self.lemma_reach_mono(kv, dv, rule, src, dp, dn);
                    self.lemma_reach_in_bounds(kv, dv, rule, src, dn);
                    assert forall|c: Coord| self.reach(kv, dv, rule, src, dn).contains(c)
                        implies self.reach(kv, dv, rule, src, dp).contains(c) by {
                        let e = at_cell(dist@, size, c);
                        assert(e != UNVISITED);
                        if e == depth {
                            assert(queue@.contains(c));
                        }
                        self.lemma_reach_mono(kv, dv, rule, src, e as nat, dp);
                    }
                    assert(self.reach(kv, dv, rule, src, dn) =~= self.reach(kv, dv, rule, src, dp));
                    self.lemma_reach_stable(kv, dv, rule, src, dp, max_distance as nat);
                    self.lemma_reach_stable(kv, dv, rule, src, dp, dn);
                }
            }
            self.lemma_reach_in_bounds(kv, dv, rule, src, max_distance as nat);
            assert(found@.to_set() =~= self.reach(kv, dv, rule, src, max_distance as nat));
        }
        (dist, found)
    }
}

} // verus!
