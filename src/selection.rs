//! The unit that the player has selected.
use vstd::prelude::*;

use crate::coord::{Coord, checked_shift, rook_moves, rook_seq};

verus! {

/// The handle of the selected unit, building or enemy, if any.
#[derive(Clone, Copy, Debug, Default, PartialEq, Eq)]
pub struct SelectedUnit {
    pub entity: Option<u64>,
}

impl SelectedUnit {
    pub fn set(&mut self, entity: u64)
        ensures
            final(self).entity == Some(entity),
    {
        self.entity = Some(entity);
    }
}

/// Whether `s` holds the cell `(x, y)`.
pub open spec fn holds_cell(s: Seq<Coord>, x: int, y: int) -> bool {
    exists|j: int| 0 <= j < s.len() && (#[trigger] s[j]).x == x && s[j].y == y
}

/// Whether `selected` holds `c`.
fn contains_cell(selected: &Vec<Coord>, c: Coord) -> (r: bool)
    ensures
        r == holds_cell(selected@, c.x as int, c.y as int),
{
    let mut j: usize = 0;
    while j < selected.len()
        invariant
            j <= selected@.len(),
            forall|k: int| 0 <= k < j ==> !((#[trigger] selected@[k]).x == c.x && selected@[k].y == c.y),
        decreases selected@.len() - j,
    {
        if selected[j].x == c.x && selected[j].y == c.y {
            return true;
        }
        j += 1;
    }
    false
}

/// For each side of `tile`, north, east, south and west in turn: whether the
/// neighbour on that side is left out of `selected`, so that the border of the
/// selection runs along that side.
pub fn selection_edges(selected: &Vec<Coord>, tile: Coord) -> (r: Vec<bool>)
    ensures
        r@.len() == 4,
        forall|i: int|
            0 <= i < 4 ==> #[trigger] r@[i] == !holds_cell(
                selected@,
                tile.x + rook_seq()[i].x,
                tile.y + rook_seq()[i].y,
            ),
{
    let rook = rook_moves();
    let mut r: Vec<bool> = Vec::new();
    let mut i: usize = 0;
    while i < 4
        invariant
            i <= 4,
            rook@ == rook_seq(),
            r@.len() == i,
            forall|k: int|
                0 <= k < i ==> #[trigger] r@[k] == !holds_cell(
                    selected@,
                    tile.x + rook_seq()[k].x,
                    tile.y + rook_seq()[k].y,
                ),
        decreases 4 - i,
    {
        let open = match checked_shift(tile, rook[i]) {
            Some(n) => !contains_cell(selected, n),
            None => true,
        };
        r.push(open);
        i += 1;
    }
    r
}

} // verus!
