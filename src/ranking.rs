//! Ordering candidate tiles by distance and by heat, and picking the best one.
use vstd::prelude::*;
use std::collections::HashMap;

use crate::coord::{Coord, dist_sq, distance_squared, in_bounds};
use crate::village_map::{Passage, Terrain, VillageMap, at_cell};

verus! {

/// Keys ascend along `s`.
pub open spec fn sorted_by(s: Seq<Coord>, key: spec_fn(Coord) -> int) -> bool {
    forall|a: int, b: int| 0 <= a < b < s.len() ==> key(s[a]) <= key(s[b])
}

/// Whether a tile's key is `k`.
pub open spec fn key_is(key: spec_fn(Coord) -> int, k: int) -> spec_fn(Coord) -> bool {
    |t: Coord| key(t) == k
}

/// The tiles of `s` whose key is `k`, in their order in `s`.
pub open spec fn key_class(s: Seq<Coord>, key: spec_fn(Coord) -> int, k: int) -> Seq<Coord> {
    s.filter(key_is(key, k))
}

/// `new` is `old` sorted by ascending key, tiles of equal key kept in their order.
pub open spec fn stably_sorted(new: Seq<Coord>, old: Seq<Coord>, key: spec_fn(Coord) -> int) -> bool {
    &&& sorted_by(new, key)
    &&& forall|k: int| #[trigger] key_class(new, key, k) == key_class(old, key, k)
}

/// The heat value of a cell, as an integer.
pub open spec fn heat_at(heat: Seq<u32>, size: Coord, c: Coord) -> int {
    at_cell(heat, size, c) as int
}

proof fn lemma_filter_single(x: Coord, p: spec_fn(Coord) -> bool)
    ensures
        seq![x].filter(p) == (if p(x) { seq![x] } else { Seq::empty() }),
{
    reveal(Seq::filter);
    assert(seq![x].drop_last() =~= Seq::<Coord>::empty());
    assert(Seq::<Coord>::empty().filter(p) =~= Seq::<Coord>::empty());
    if p(x) {
        assert(seq![x].filter(p) =~= seq![x]);
    } else {
        assert(seq![x].filter(p) =~= Seq::<Coord>::empty());
    }
}

/// Swapping two neighbours of different keys leaves every key class as it was.
proof fn lemma_swap_keeps_classes(s: Seq<Coord>, j: int, key: spec_fn(Coord) -> int)
    requires
        0 < j < s.len(),
        key(s[j - 1]) != key(s[j]),
    ensures
        forall|k: int| #[trigger]
            key_class(s.update(j - 1, s[j]).update(j, s[j - 1]), key, k) == key_class(s, key, k),
{
    let t = s.update(j - 1, s[j]).update(j, s[j - 1]);
    let a = s.subrange(0, j - 1);
    let b = s.subrange(j + 1, s.len() as int);
    let x = s[j - 1];
    let y = s[j];
    assert(s =~= a + (seq![x] + seq![y]) + b);
    assert(t =~= a + (seq![y] + seq![x]) + b);
    assert forall|k: int| #[trigger] key_class(t, key, k) == key_class(s, key, k) by {
        let p = key_is(key, k);
        #[allow(deprecated)]
        {
            Seq::filter_distributes_over_add(a + (seq![x] + seq![y]), b, p);
            Seq::filter_distributes_over_add(a, seq![x] + seq![y], p);
            Seq::filter_distributes_over_add(seq![x], seq![y], p);
            Seq::filter_distributes_over_add(a + (seq![y] + seq![x]), b, p);
            Seq::filter_distributes_over_add(a, seq![y] + seq![x], p);
            Seq::filter_distributes_over_add(seq![y], seq![x], p);
        }
        lemma_filter_single(x, p);
        lemma_filter_single(y, p);
        assert(seq![x].filter(p) + seq![y].filter(p) =~= seq![y].filter(p) + seq![x].filter(p));
    }
}

/// Filtering a sorted sequence keeps it sorted.
proof fn lemma_filter_sorted(s: Seq<Coord>, key: spec_fn(Coord) -> int, p: spec_fn(Coord) -> bool)
    requires
        sorted_by(s, key),
    ensures
        sorted_by(s.filter(p), key),
    decreases s.len(),
{
    reveal(Seq::filter);
    if s.len() > 0 {
        let d = s.drop_last();
        assert(sorted_by(d, key));
        lemma_filter_sorted(d, key, p);
        let f = d.filter(p);
        if p(s.last()) {
            assert(s.filter(p) == f.push(s.last()));
            assert forall|a: int| 0 <= a < f.len() implies key(#[trigger] f[a]) <= key(s.last()) by {
                assert(f.contains(f[a]));
                d.lemma_filter_contains_rev(p, f[a]);
                let w = choose|w: int| 0 <= w < d.len() && d[w] == f[a];
                assert(s[w] == d[w]);
            }
        }
    }
}

/// A stable sort neither drops nor adds a tile.
proof fn lemma_stable_same_tiles(new: Seq<Coord>, old: Seq<Coord>, key: spec_fn(Coord) -> int)
    requires
        stably_sorted(new, old, key),
    ensures
        forall|x: Coord| new.contains(x) <==> old.contains(x),
{
    assert forall|x: Coord| new.contains(x) <==> old.contains(x) by {
        let k = key(x);
        let p = key_is(key, k);
        assert(key_class(new, key, k) == key_class(old, key, k));
        if old.contains(x) {
            let w = choose|w: int| 0 <= w < old.len() && old[w] == x;
            old.lemma_filter_contains(p, w);
            new.lemma_filter_contains_rev(p, x);
        }
        if new.contains(x) {
            let w = choose|w: int| 0 <= w < new.len() && new[w] == x;
            new.lemma_filter_contains(p, w);
            old.lemma_filter_contains_rev(p, x);
        }
    }
}

/// The tiles of one key class of a sequence sorted by `key2` are sorted by `key2`.
proof fn lemma_class_sorted(s: Seq<Coord>, key2: spec_fn(Coord) -> int, key: spec_fn(Coord) -> int, k: int)
    requires
        sorted_by(s, key2),
    ensures
        sorted_by(key_class(s, key, k), key2),
{
    lemma_filter_sorted(s, key2, key_is(key, k));
}

/// The first tile of a sequence heads its own key class.
proof fn lemma_class_head(s: Seq<Coord>, key: spec_fn(Coord) -> int)
    requires
        s.len() > 0,
    ensures
        key_class(s, key, key(s[0])).len() > 0,
        key_class(s, key, key(s[0]))[0] == s[0],
{
    let p = key_is(key, key(s[0]));
    assert(s =~= seq![s[0]] + s.drop_first());
    s.drop_first().lemma_filter_prepend(s[0], p);
}

/// Stable insertion sort of `tiles`, where `keys` holds the key of each tile.
fn insertion_sort(tiles: &mut Vec<Coord>, keys: &mut Vec<u128>, Ghost(key): Ghost<spec_fn(Coord) -> int>)
    requires
        old(tiles)@.len() == old(keys)@.len(),
        forall|i: int| 0 <= i < old(keys)@.len() ==> old(keys)@[i] as int == key(#[trigger] old(tiles)@[i]),
    ensures
        final(tiles)@.len() == old(tiles)@.len(),
        stably_sorted(final(tiles)@, old(tiles)@, key),
{
    let ghost orig = tiles@;
    let n = tiles.len();
    let mut i: usize = 0;
    while i < n
        invariant
            n == tiles@.len(),
            n == keys@.len(),
            i <= n,
            forall|x: int| 0 <= x < n ==> keys@[x] as int == key(#[trigger] tiles@[x]),
            forall|a: int, b: int| 0 <= a < b < i ==> key(tiles@[a]) <= key(tiles@[b]),
            forall|k: int| #[trigger] key_class(tiles@, key, k) == key_class(orig, key, k),
        decreases n - i,
    {
        let mut j: usize = i;
        while j > 0 && keys[j - 1] > keys[j]
            invariant
                n == tiles@.len(),
                n == keys@.len(),
                i < n,
                j <= i,
                forall|x: int| 0 <= x < n ==> keys@[x] as int == key(#[trigger] tiles@[x]),
                forall|a: int, b: int|
                    0 <= a < b <= i && a != j && b != j ==> key(tiles@[a]) <= key(tiles@[b]),
                forall|b: int| j < b <= i ==> key(tiles@[j as int]) < key(#[trigger] tiles@[b]),
                forall|k: int| #[trigger] key_class(tiles@, key, k) == key_class(orig, key, k),
            decreases j,
        {
            proof {
                lemma_swap_keeps_classes(tiles@, j as int, key);
            }
            let a = tiles[j - 1];
            let b = tiles[j];
            tiles.set(j - 1, b);
            tiles.set(j, a);
            let ka = keys[j - 1];
            let kb = keys[j];
            keys.set(j - 1, kb);
            keys.set(j, ka);
            j -= 1;
        }
        proof {
            assert(j == 0 || key(tiles@[j - 1]) <= key(tiles@[j as int]));
            assert forall|a: int, b: int| 0 <= a < b < i + 1 implies key(tiles@[a]) <= key(tiles@[b]) by {
                if b == j && a < j - 1 {
                    assert(key(tiles@[a]) <= key(tiles@[j - 1]));
                }
            }
        }
        i += 1;
    }
}

impl VillageMap {
    /// Sorts `tiles` by ascending squared distance to `target_tile`, keeping the
    /// order of tiles at equal distance.
    pub fn sort_tiles_by_distance(tiles: &mut Vec<Coord>, target_tile: Coord)
        ensures
            stably_sorted(final(tiles)@, old(tiles)@, |t: Coord| dist_sq(t, target_tile)),
    {
        let ghost key = |t: Coord| dist_sq(t, target_tile);
        let mut keys: Vec<u128> = Vec::new();
        let mut i: usize = 0;
        while i < tiles.len()
            invariant
                key == (|t: Coord| dist_sq(t, target_tile)),
                i <= tiles@.len(),
                keys@.len() == i,
                forall|x: int| 0 <= x < i ==> keys@[x] as int == key(#[trigger] tiles@[x]),
            decreases tiles@.len() - i,
        {
            keys.push(distance_squared(tiles[i], target_tile));
            i += 1;
        }
        insertion_sort(tiles, &mut keys, Ghost(key));
    }

    /// Sorts `tiles` by ascending heat value, keeping the order of tiles of equal heat.
    pub fn sort_tiles_by_heat(&self, tiles: &mut Vec<Coord>)
        requires
            self.wf(),
            self.heat_ready(),
            forall|i: int| 0 <= i < old(tiles)@.len() ==> in_bounds(self.size, #[trigger] old(tiles)@[i]),
        ensures
            stably_sorted(final(tiles)@, old(tiles)@, |t: Coord| heat_at(self.heat_map@, self.size, t)),
    {
        let ghost key = |t: Coord| heat_at(self.heat_map@, self.size, t);
        let mut keys: Vec<u128> = Vec::new();
        let mut i: usize = 0;
        while i < tiles.len()
            invariant
                self.wf(),
                self.heat_ready(),
                key == (|t: Coord| heat_at(self.heat_map@, self.size, t)),
                i <= tiles@.len(),
                keys@.len() == i,
                forall|x: int| 0 <= x < tiles@.len() ==> in_bounds(self.size, #[trigger] tiles@[x]),
                forall|x: int| 0 <= x < i ==> keys@[x] as int == key(#[trigger] tiles@[x]),
            decreases tiles@.len() - i,
        {
            let k = self.index_of(tiles[i]);
            keys.push(self.heat_map[k] as u128);
            i += 1;
        }
        insertion_sort(tiles, &mut keys, Ghost(key));
    }
    /// `t` is among `candidates` and no candidate beats it: none has less heat,
    /// and none of equal heat lies closer to `start`.
    pub open spec fn is_best_tile(&self, candidates: Set<Coord>, start: Coord, t: Coord) -> bool {
        &&& candidates.contains(t)
        &&& forall|u: Coord| #[trigger] candidates.contains(u) ==> {
            ||| heat_at(self.heat_map@, self.size, t) < heat_at(self.heat_map@, self.size, u)
            ||| (heat_at(self.heat_map@, self.size, t) == heat_at(self.heat_map@, self.size, u)
                && dist_sq(t, start) <= dist_sq(u, start))
        }
    }

    /// Of two candidates that share the least heat, the best tile is never the
    /// one farther from `start`: it has that heat and lies no farther than the nearer.
    pub proof fn lemma_best_tile_tie_break(
        &self,
        candidates: Set<Coord>,
        start: Coord,
        r: Coord,
        a: Coord,
        b: Coord,
    )
        requires
            self.is_best_tile(candidates, start, r),
            candidates.contains(a),
            candidates.contains(b),
            heat_at(self.heat_map@, self.size, a) == heat_at(self.heat_map@, self.size, b),
            forall|u: Coord| #[trigger] candidates.contains(u) ==> heat_at(self.heat_map@, self.size, a)
                <= heat_at(self.heat_map@, self.size, u),
            dist_sq(a, start) < dist_sq(b, start),
        ensures
            r != b,
            heat_at(self.heat_map@, self.size, r) == heat_at(self.heat_map@, self.size, a),
            dist_sq(r, start) <= dist_sq(a, start),
    {
        assert(candidates.contains(r));
    }

    /// The tile of least heat among those reachable from `start`, ties going
    /// to the tile nearer to `start`.
    pub fn get_best_tile(
        &self,
        start: Coord,
        max_distance: u32,
        directions: &[Coord],
        is_airborne: bool,
        kinds: &HashMap<u64, Terrain>,
    ) -> (r: Option<Coord>)
        requires
            self.wf(),
            self.heat_ready(),
            in_bounds(self.size, start),
        ensures
            r.is_some(),
            match r {
                Some(t) => self.is_best_tile(
                    self.reach(kinds@, directions@, Passage::Mover(is_airborne), set![start], max_distance as nat),
                    start,
                    t,
                ),
                None => true,
            },
    {
        let ghost reach = self.reach(kinds@, directions@, Passage::Mover(is_airborne), set![start], max_distance as nat);
        let ghost dkey = |t: Coord| dist_sq(t, start);
        let ghost hkey = |t: Coord| heat_at(self.heat_map@, self.size, t);
        let mut tiles = self.flood(start, max_distance, directions, is_airborne, kinds);
        let ghost f0 = tiles@;
        Self::sort_tiles_by_distance(&mut tiles, start);
        let ghost m = tiles@;
        proof {
            lemma_stable_same_tiles(m, f0, dkey);
            self.lemma_reach_in_bounds(kinds@, directions@, Passage::Mover(is_airborne), set![start], max_distance as nat);
            assert forall|i: int| 0 <= i < m.len() implies in_bounds(self.size, #[trigger] m[i]) by {
                assert(m.contains(m[i]));
                assert(f0.to_set().contains(m[i]));
            }
        }
        self.sort_tiles_by_heat(&mut tiles);
        proof {
            lemma_stable_same_tiles(tiles@, m, hkey);
            self.lemma_reach_mono(kinds@, directions@, Passage::Mover(is_airborne), set![start], 0, max_distance as nat);
            assert(reach.contains(start));
            assert(f0.to_set().contains(start));
            assert(tiles@.contains(start));
        }
        if tiles.len() == 0 {
            return None;
        }
        let best = tiles[0];
        proof {
            let f = tiles@;
            let k0 = hkey(best);
            lemma_class_head(f, hkey);
            lemma_class_sorted(m, dkey, hkey, k0);
            assert(key_class(f, hkey, k0) == key_class(m, hkey, k0));
            let cls = key_class(f, hkey, k0);
            assert(f.contains(best));
            assert forall|u: Coord| #[trigger] reach.contains(u) implies {
                ||| hkey(best) < hkey(u)
                ||| (hkey(best) == hkey(u) && dkey(best) <= dkey(u))
            } by {
                assert(f0.to_set().contains(u));
                assert(f.contains(u));
                let w = choose|w: int| 0 <= w < f.len() && f[w] == u;
                if w > 0 {
                    assert(hkey(f[0]) <= hkey(f[w]));
                }
                if hkey(u) == k0 {
                    f.lemma_filter_contains(key_is(hkey, k0), w);
                    assert(cls.contains(u));
                    let b = choose|b: int| 0 <= b < cls.len() && cls[b] == u;
                    if b > 0 {
                        assert(dkey(cls[0]) <= dkey(cls[b]));
                    }
                }
            }
            assert(reach.contains(best));
        }
        Some(best)
    }
}

} // verus!
