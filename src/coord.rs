//! Integer grid coordinates and movement directions.
use vstd::prelude::*;

verus! {

/// A grid coordinate, also used for a movement offset.
#[derive(Clone, Copy, Debug, PartialEq, Eq, Hash, Structural)]
pub struct Coord {
    pub x: i32,
    pub y: i32,
}

impl Coord {
    pub fn new(x: i32, y: i32) -> (r: Coord)
        ensures
            r.x == x,
            r.y == y,
    {
        Coord { x, y }
    }
}

/// Spec shorthand for a coordinate.
pub open spec fn xy(x: int, y: int) -> Coord {
    Coord { x: x as i32, y: y as i32 }
}

/// Whether `c` lies in the rectangle `[0, size.x) x [0, size.y)`.
pub open spec fn in_bounds(size: Coord, c: Coord) -> bool {
    0 <= c.x < size.x && 0 <= c.y < size.y
}

/// Absolute value of an integer.
pub open spec fn abs(a: int) -> int {
    if a < 0 { -a } else { a }
}

/// Number of rook moves between two cells on an unobstructed board.
pub open spec fn manhattan(a: Coord, b: Coord) -> int {
    abs(a.x - b.x) + abs(a.y - b.y)
}

/// Squared euclidean distance between two cells.
pub open spec fn dist_sq(a: Coord, b: Coord) -> int {
    (a.x - b.x) * (a.x - b.x) + (a.y - b.y) * (a.y - b.y)
}

/// The four orthogonal offsets, north, east, south and west.
pub open spec fn rook_seq() -> Seq<Coord> {
    seq![xy(0, -1), xy(1, 0), xy(0, 1), xy(-1, 0)]
}

/// The eight offsets of a king, clockwise from north.
pub open spec fn king_seq() -> Seq<Coord> {
    seq![xy(0, -1), xy(1, -1), xy(1, 0), xy(1, 1), xy(0, 1), xy(-1, 1), xy(-1, 0), xy(-1, -1)]
}

/// Four directional movement in straight lines like a rook.
pub fn rook_moves() -> (r: Vec<Coord>)
    ensures
        r@ == rook_seq(),
{
    let r = vec![Coord { x: 0, y: -1 }, Coord { x: 1, y: 0 }, Coord { x: 0, y: 1 }, Coord { x: -1, y: 0 }];
    assert(r@ =~= rook_seq());
    r
}

/// Eight directional movement like a king.
pub fn king_moves() -> (r: Vec<Coord>)
    ensures
        r@ == king_seq(),
{
    let r = vec![
        Coord { x: 0, y: -1 },
        Coord { x: 1, y: -1 },
        Coord { x: 1, y: 0 },
        Coord { x: 1, y: 1 },
        Coord { x: 0, y: 1 },
        Coord { x: -1, y: 1 },
        Coord { x: -1, y: 0 },
        Coord { x: -1, y: -1 },
    ];
    assert(r@ =~= king_seq());
    r
}

/// Squared euclidean distance between two cells, exact for every pair of `i32` coordinates.
pub fn distance_squared(a: Coord, b: Coord) -> (r: u128)
    ensures
        r == dist_sq(a, b),
{
    let dx: i64 = a.x as i64 - b.x as i64;
    let dy: i64 = a.y as i64 - b.y as i64;
    let ax: u128 = if dx < 0 { (-dx) as u128 } else { dx as u128 };
    let ay: u128 = if dy < 0 { (-dy) as u128 } else { dy as u128 };
    assert(ax * ax <= 0xffff_ffff_ffff_ffff_ffff_ffff_ffff_ffffu128 / 4) by (nonlinear_arith)
        requires ax <= 0x1_0000_0000u128;
    assert(ay * ay <= 0xffff_ffff_ffff_ffff_ffff_ffff_ffff_ffffu128 / 4) by (nonlinear_arith)
        requires ay <= 0x1_0000_0000u128;
    assert(ax * ax == dx * dx && ay * ay == dy * dy) by (nonlinear_arith)
        requires ax == abs(dx as int), ay == abs(dy as int);
    ax * ax + ay * ay
}

/// `c` moved by `d`, or `None` where the sum leaves the range of `i32`.
pub fn checked_shift(c: Coord, d: Coord) -> (r: Option<Coord>)
    ensures
        match r {
            Some(n) => n.x == c.x + d.x && n.y == c.y + d.y,
            None => !(i32::MIN <= c.x + d.x <= i32::MAX && i32::MIN <= c.y + d.y <= i32::MAX),
        },
{
    let x: i64 = c.x as i64 + d.x as i64;
    let y: i64 = c.y as i64 + d.y as i64;
    if x < i32::MIN as i64 || x > i32::MAX as i64 || y < i32::MIN as i64 || y > i32::MAX as i64 {
        None
    } else {
        Some(Coord { x: x as i32, y: y as i32 })
    }
}

} // verus!
