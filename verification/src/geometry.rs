//! Grid coordinates, the Manhattan distance and the four compass directions.

use vstd::prelude::*;

verus! {

/// The absolute difference of two integers.
pub open spec fn abs_diff(a: int, b: int) -> int {
    if a <= b {
        b - a
    } else {
        a - b
    }
}

/// The Manhattan distance of two points of the integer plane: the sum of
/// the absolute differences of their coordinates.
pub open spec fn manhattan(a: (int, int), b: (int, int)) -> int {
    abs_diff(a.0, b.0) + abs_diff(a.1, b.1)
}

/// The Manhattan distance is the same in both directions.
pub proof fn lemma_manhattan_symmetric(a: (int, int), b: (int, int))
    ensures
        manhattan(a, b) == manhattan(b, a),
{
}

/// The Manhattan distance obeys the triangle inequality: a detour over a
/// third point is never shorter.
pub proof fn lemma_manhattan_triangle(a: (int, int), b: (int, int), c: (int, int))
    ensures
        manhattan(a, c) <= manhattan(a, b) + manhattan(b, c),
{
}

/// The Manhattan distance is zero between a point and itself only.
pub proof fn lemma_manhattan_zero(a: (int, int), b: (int, int))
    ensures
        manhattan(a, b) >= 0,
        manhattan(a, b) == 0 <==> a == b,
{
}

/// The Manhattan distance of two points with signed coordinates.
pub fn manhattan_distance_i64(a: (i64, i64), b: (i64, i64)) -> (d: i64)
    requires
        manhattan((a.0 as int, a.1 as int), (b.0 as int, b.1 as int)) <= i64::MAX,
    ensures
        d == manhattan((a.0 as int, a.1 as int), (b.0 as int, b.1 as int)),
{
    let dx: i128 = if a.0 <= b.0 {
        b.0 as i128 - a.0 as i128
    } else {
        a.0 as i128 - b.0 as i128
    };
    let dy: i128 = if a.1 <= b.1 {
        b.1 as i128 - a.1 as i128
    } else {
        a.1 as i128 - b.1 as i128
    };
    (dx + dy) as i64
}

/// The Manhattan distance of two points with unsigned coordinates.
pub fn manhattan_distance_usize(a: (usize, usize), b: (usize, usize)) -> (d: usize)
    requires
        manhattan((a.0 as int, a.1 as int), (b.0 as int, b.1 as int)) <= usize::MAX,
    ensures
        d == manhattan((a.0 as int, a.1 as int), (b.0 as int, b.1 as int)),
{
    let dx: usize = if a.0 <= b.0 {
        b.0 - a.0
    } else {
        a.0 - b.0
    };
    let dy: usize = if a.1 <= b.1 {
        b.1 - a.1
    } else {
        a.1 - b.1
    };
    dx + dy
}

/// A step on the grid: the change of the row, then that of the column.
#[derive(Debug, PartialEq, Eq, Structural, Hash, Clone, Copy)]
pub struct Direction(pub i32, pub i32);

impl Direction {
    /// One of the four compass directions.
    pub open spec fn is_compass(self) -> bool {
        self == Direction(0, 1) || self == Direction(0, -1i32) || self == Direction(1, 0) || self
            == Direction(-1i32, 0)
    }

    /// One column to the right.
    pub fn right() -> (d: Direction)
        ensures
            d == Direction(0, 1),
    {
        Direction(0, 1)
    }

    /// One column to the left.
    pub fn left() -> (d: Direction)
        ensures
            d == Direction(0, -1i32),
    {
        Direction(0, -1i32)
    }

    /// One row down.
    pub fn down() -> (d: Direction)
        ensures
            d == Direction(1, 0),
    {
        Direction(1, 0)
    }

    /// One row up.
    pub fn up() -> (d: Direction)
        ensures
            d == Direction(-1i32, 0),
    {
        Direction(-1i32, 0)
    }

    /// The direction a quarter turn to the left of this one.
    pub open spec fn left_of(self) -> Direction {
        Direction((-self.1) as i32, self.0)
    }

    /// The direction a quarter turn to the right of this one.
    pub open spec fn right_of(self) -> Direction {
        Direction(self.1, (-self.0) as i32)
    }

    /// The direction opposite to this one.
    pub open spec fn opposite(self) -> Direction {
        Direction((-self.0) as i32, (-self.1) as i32)
    }

    /// Turns a quarter to the left: right becomes up, up becomes left.
    pub fn turn_left(self) -> (d: Direction)
        requires
            self.is_compass(),
        ensures
            d == self.left_of(),
            d.is_compass(),
    {
        Direction(-self.1, self.0)
    }

    /// Turns a quarter to the right: right becomes down, down becomes left.
    pub fn turn_right(self) -> (d: Direction)
        requires
            self.is_compass(),
        ensures
            d == self.right_of(),
            d.is_compass(),
    {
        Direction(self.1, -self.0)
    }

    /// Turns round.
    pub fn reverse(self) -> (d: Direction)
        requires
            self.is_compass(),
        ensures
            d == self.opposite(),
            d.is_compass(),
    {
        Direction(-self.0, -self.1)
    }

    /// The four compass directions: right, left, down, up.
    pub fn compass() -> (v: [Direction; 4])
        ensures
            v@ == compass_rose(),
    {
        let v = [Direction(0, 1), Direction(0, -1i32), Direction(1, 0), Direction(-1i32, 0)];
        assert(v@ =~= compass_rose());
        v
    }
}

/// The four compass directions in the order in which neighbours are
/// visited: right, left, down, up.
pub open spec fn compass_rose() -> Seq<Direction> {
    seq![Direction(0, 1), Direction(0, -1i32), Direction(1, 0), Direction(-1i32, 0)]
}

/// A left turn undoes a right turn, two left turns turn round, and
/// turning round twice changes nothing.
pub proof fn lemma_turns(d: Direction)
    requires
        d.is_compass(),
    ensures
        d.left_of().right_of() == d,
        d.right_of().left_of() == d,
        d.left_of().left_of() == d.opposite(),
        d.opposite().opposite() == d,
{
}

/// The point one step from `pos` in the direction `d`.
pub open spec fn step(pos: (i32, i32), d: Direction) -> (int, int) {
    (pos.0 + d.0, pos.1 + d.1)
}

/// The four points next to `pos`, in the order of the compass rose.
pub fn get_neighbors(pos: (i32, i32)) -> (v: Vec<(i32, i32)>)
    requires
        i32::MIN < pos.0 < i32::MAX,
        i32::MIN < pos.1 < i32::MAX,
    ensures
        v@.len() == 4,
        forall|k: int| 0 <= k < 4 ==> (#[trigger] v@[k].0 as int, v@[k].1 as int) == step(pos, compass_rose()[k]),
{
    let mut v: Vec<(i32, i32)> = Vec::new();
    v.push((pos.0, pos.1 + 1));
    v.push((pos.0, pos.1 - 1));
    v.push((pos.0 + 1, pos.1));
    v.push((pos.0 - 1, pos.1));
    v
}

} // verus!
