//! A city of blocks that each cost some heat to enter. A crucible goes
//! from one corner to the other in straight legs of a bounded number of
//! blocks, turning left or right between two legs. The puzzle asks for the
//! least heat that a way through the city costs.

use crate::geometry::Direction;
use crate::grid::{lemma_sum_of_rows_update, sum_of_rows};
use crate::text::{ascii_bytes, lines, rows_of, split_lines, to_ascii, ParseError};
use vstd::prelude::*;

verus! {

/// The city: the heat that each block costs, row by row, and the numbers
/// of rows and columns.
#[derive(Debug, PartialEq, Eq)]
pub struct Input {
    pub map: Vec<Vec<u32>>,
    pub size: (i32, i32),
}

/// A crucible on its way: the heat lost so far, where it is, and the
/// direction of its last leg, if it has moved.
#[derive(Debug, PartialEq, Eq, Clone, Copy)]
pub struct State {
    pub heat_loss: u32,
    pub pos: (i32, i32),
    pub dir: Option<Direction>,
}

/// The number under the largest 32-bit number, and that number above it.
pub open spec fn capped(x: int) -> u32 {
    if x >= u32::MAX {
        u32::MAX
    } else if x < 0 {
        0
    } else {
        x as u32
    }
}

/// The position `k` blocks ahead of `pos` in the direction `dir`.
pub open spec fn ahead(pos: (int, int), dir: Direction, k: int) -> (int, int)
    decreases k,
{
    if k <= 0 {
        pos
    } else {
        (ahead(pos, dir, k - 1).0 + dir.0, ahead(pos, dir, k - 1).1 + dir.1)
    }
}

impl Input {
    /// The map has its height in rows of its width.
    pub open spec fn is_valid(&self) -> bool {
        &&& self.map@.len() == self.size.0
        &&& self.size.0 >= 0
        &&& self.size.1 >= 0
        &&& forall|i: int| 0 <= i < self.size.0 ==> (#[trigger] self.map@[i])@.len() == self.size.1
    }

    /// The position lies in the city.
    pub open spec fn inside(&self, pos: (int, int)) -> bool {
        0 <= pos.0 < self.size.0 && 0 <= pos.1 < self.size.1
    }

    /// The heat that the block at a position costs.
    pub open spec fn cost(&self, pos: (int, int)) -> int {
        self.map@[pos.0]@[pos.1] as int
    }

    /// The first `k` blocks ahead of `pos` in the direction `dir` lie in
    /// the city.
    pub open spec fn leg_inside(&self, pos: (int, int), dir: Direction, k: int) -> bool
        decreases k,
    {
        k <= 0 || (self.leg_inside(pos, dir, k - 1) && self.inside(ahead(pos, dir, k)))
    }

    /// The heat that the first `k` blocks ahead of `pos` in the direction
    /// `dir` cost together.
    pub open spec fn leg_cost(&self, pos: (int, int), dir: Direction, k: int) -> int
        decreases k,
    {
        if k <= 0 {
            0
        } else {
            self.leg_cost(pos, dir, k - 1) + self.cost(ahead(pos, dir, k))
        }
    }

    /// Where the legs of 1 to `k` blocks from `pos` in the direction `dir`
    /// end, those shorter than `min` blocks and those that leave the city
    /// aside, each with the direction and the heat that the leg costs.
    pub open spec fn legs_along(&self, pos: (int, int), min: int, dir: Direction, k: int) -> Seq<
        ((i32, i32), Direction, u32),
    >
        decreases k,
    {
        if k <= 0 {
            Seq::empty()
        } else if self.leg_inside(pos, dir, k) && k >= min {
            self.legs_along(pos, min, dir, k - 1).push(
                (
                    (ahead(pos, dir, k).0 as i32, ahead(pos, dir, k).1 as i32),
                    dir,
                    capped(self.leg_cost(pos, dir, k)),
                ),
            )
        } else {
            self.legs_along(pos, min, dir, k - 1)
        }
    }

    /// Where the legs from `pos` in the first `n` of the directions end.
    pub open spec fn legs_toward(
        &self,
        pos: (int, int),
        min: int,
        max: int,
        dirs: Seq<Direction>,
        n: int,
    ) -> Seq<((i32, i32), Direction, u32)>
        decreases n,
    {
        if n <= 0 {
            Seq::empty()
        } else {
            self.legs_toward(pos, min, max, dirs, n - 1) + self.legs_along(
                pos,
                min,
                dirs[n - 1],
                max,
            )
        }
    }

    /// Where a crucible at `pos` that came in the direction `direction`
    /// can go next, with the direction and the heat of each leg.
    pub open spec fn positions(
        &self,
        pos: (int, int),
        min: int,
        max: int,
        direction: Option<Direction>,
    ) -> Seq<((i32, i32), Direction, u32)> {
        self.legs_toward(pos, min, max, next_directions(direction), next_directions(direction).len() as int)
    }

    /// Whether the position lies in the city.
    pub fn is_in(&self, pos: (i32, i32)) -> (r: bool)
        ensures
            r == self.inside((pos.0 as int, pos.1 as int)),
    {
        pos.0 >= 0 && pos.0 < self.size.0 && pos.1 >= 0 && pos.1 < self.size.1
    }

    /// The heat that the block at a position costs.
    pub fn get_cost(&self, pos: (i32, i32)) -> (r: u32)
        requires
            self.is_valid(),
            self.inside((pos.0 as int, pos.1 as int)),
        ensures
            r == self.cost((pos.0 as int, pos.1 as int)),
    {
        self.map[pos.0 as usize][pos.1 as usize]
    }

    /// The text has a line, every byte of a line is a decimal digit, and no
    /// line nor the number of lines is beyond 32 bits with a sign.
    pub open spec fn accepts(text: Seq<u8>) -> bool {
        let ls = lines(text);
        &&& 0 < ls.len() <= i32::MAX
        &&& forall|i: int| 0 <= i < ls.len() ==> (#[trigger] ls[i]).len() <= i32::MAX
        &&& forall|i: int, j: int|
            0 <= i < ls.len() && 0 <= j < ls[i].len() ==> 48 <= #[trigger] ls[i][j] <= 57
    }

    /// This value is what the text says: a row for each line and in it the
    /// value of each digit; the size is the number of lines and the length
    /// of the first.
    pub open spec fn is_parse_of(&self, text: Seq<u8>) -> bool {
        let ls = lines(text);
        &&& self.size == (ls.len() as i32, ls[0].len() as i32)
        &&& self.map@.len() == ls.len()
        &&& forall|i: int| 0 <= i < ls.len() ==> (#[trigger] self.map@[i])@.len() == ls[i].len()
        &&& forall|i: int, j: int|
            0 <= i < ls.len() && 0 <= j < ls[i].len() ==> (#[trigger] self.map@[i]@[j]) == ls[i][j]
                - 48
    }

    /// Reads a city. A text is accepted if it is ASCII and has a line, all
    /// of digits, within the limits of a position.
    pub fn from_str(s: &str) -> (r: Result<Input, ParseError>)
        ensures
            match r {
                Ok(v) => ascii_bytes(s@) is Some && Input::accepts(ascii_bytes(s@)->0)
                    && v.is_parse_of(ascii_bytes(s@)->0),
                Err(_) => ascii_bytes(s@) is None || !Input::accepts(ascii_bytes(s@)->0),
            },
    {
        let bytes = match to_ascii(s) {
            Some(b) => b,
            None => { return Err(ParseError {  }); },
        };
        let ghost text = bytes@;
        let ls = split_lines(bytes.as_slice());
        let ghost rows = lines(text);
        assert(rows.len() == ls@.len());
        if ls.len() == 0 || ls.len() > 0x7fff_ffff {
            return Err(ParseError {  });
        }
        let mut map: Vec<Vec<u32>> = Vec::new();
        let mut i: usize = 0;
        while i < ls.len()
            invariant
                i <= ls@.len(),
                ls@.len() <= i32::MAX,
                rows_of(ls@) == rows,
                rows == lines(text),
                ascii_bytes(s@) == Some(text),
                map@.len() == i,
                forall|a: int| 0 <= a < i ==> (#[trigger] rows[a]).len() <= i32::MAX,
                forall|a: int| 0 <= a < i ==> (#[trigger] map@[a])@.len() == rows[a].len(),
                forall|a: int, b: int|
                    0 <= a < i && 0 <= b < rows[a].len() ==> 48 <= #[trigger] rows[a][b] <= 57,
                forall|a: int, b: int|
                    0 <= a < i && 0 <= b < rows[a].len() ==> (#[trigger] map@[a]@[b]) == rows[a][b]
                        - 48,
            decreases ls@.len() - i,
        {
            let line = &ls[i];
            assert(line@ == rows[i as int]);
            if line.len() > 0x7fff_ffff {
                return Err(ParseError {  });
            }
            let mut row: Vec<u32> = Vec::new();
            let mut j: usize = 0;
            while j < line.len()
                invariant
                    j <= line@.len(),
                    row@.len() == j,
                    line@ == rows[i as int],
                    rows == lines(text),
                    ascii_bytes(s@) == Some(text),
                    0 <= i < rows.len(),
                    forall|b: int| 0 <= b < j ==> 48 <= #[trigger] line@[b] <= 57,
                    forall|b: int| 0 <= b < j ==> row@[b] == line@[b] - 48,
                decreases line@.len() - j,
            {
                let b = line[j];
                if b < 48 || b > 57 {
                    assert(!(48 <= rows[i as int][j as int] <= 57));
                    return Err(ParseError {  });
                }
                row.push((b - 48) as u32);
                j += 1;
            }
            map.push(row);
            i += 1;
        }
        assert(ls@[0]@ == rows[0]);
        let size = (map.len() as i32, map[0].len() as i32);
        Ok(Input { map, size })
    }
}

/// The directions of the next leg: to the left and to the right of the
/// last one, or any of the four for a crucible that has not moved.
pub open spec fn next_directions(direction: Option<Direction>) -> Seq<Direction> {
    match direction {
        Some(dir) => seq![dir.left_of(), dir.right_of()],
        None => seq![Direction(0, 1), Direction(1, 0), Direction(0, -1i32), Direction(-1i32, 0)],
    }
}

/// The directions of the next leg after a leg in the given direction.
pub fn get_possible_next_directions(direction: Option<Direction>) -> (v: Vec<Direction>)
    requires
        direction is Some ==> direction->0.is_compass(),
    ensures
        v@ == next_directions(direction),
        forall|k: int| 0 <= k < v@.len() ==> (#[trigger] v@[k]).is_compass(),
{
    let mut v: Vec<Direction> = Vec::new();
    match direction {
        Some(dir) => {
            v.push(dir.turn_left());
            v.push(dir.turn_right());
        },
        None => {
            v.push(Direction::right());
            v.push(Direction::down());
            v.push(Direction::left());
            v.push(Direction::up());
        },
    }
    assert(v@ =~= next_directions(direction));
    v
}

/// Where a crucible at `position` that came in the direction `direction`
/// can go next: the ends of the legs of `min` to `max` blocks to the left
/// and to the right that stay in the city, nearest first, each with its
/// direction and the heat of the blocks that it enters. A heat beyond 32
/// bits is given as the largest 32-bit number.
pub fn get_positions(
    input: &Input,
    position: (i32, i32),
    min: i32,
    max: i32,
    direction: Option<Direction>,
) -> (r: Vec<((i32, i32), Direction, u32)>)
    requires
        input.is_valid(),
        input.inside((position.0 as int, position.1 as int)),
        direction is Some ==> direction->0.is_compass(),
    ensures
        r@ == input.positions((position.0 as int, position.1 as int), min as int, max as int, direction),
{
    let ghost pos = (position.0 as int, position.1 as int);
    let mut results: Vec<((i32, i32), Direction, u32)> = Vec::new();
    let dirs = get_possible_next_directions(direction);
    let mut n: usize = 0;
    while n < dirs.len()
        invariant
            n <= dirs@.len(),
            input.is_valid(),
            input.inside(pos),
            pos == (position.0 as int, position.1 as int),
            forall|k: int| 0 <= k < dirs@.len() ==> (#[trigger] dirs@[k]).is_compass(),
            results@ == input.legs_toward(pos, min as int, max as int, dirs@, n as int),
        decreases dirs@.len() - n,
    {
        let dir = dirs[n];
        assert(dirs@[n as int].is_compass());
        let ghost sofar = results@;
        let mut sum: u32 = 0;
        let mut current: (i32, i32) = position;
        let mut dist: i32 = 0;
        let mut out = false;
        while dist < max && !out
            invariant
                0 <= dist,
                dist <= max || max < 0,
                max < 0 ==> dist == 0,
                dir.is_compass(),
                input.is_valid(),
                input.inside(pos),
                !out ==> input.leg_inside(pos, dir, dist as int),
                !out ==> (current.0 as int, current.1 as int) == ahead(pos, dir, dist as int),
                !out ==> input.inside((current.0 as int, current.1 as int)),
                !out ==> sum == capped(input.leg_cost(pos, dir, dist as int)),
                input.leg_cost(pos, dir, dist as int) >= 0,
                out ==> !input.leg_inside(pos, dir, dist as int),
                results@ == sofar + input.legs_along(pos, min as int, dir, dist as int),
            decreases max - dist, if out { 0int } else { 1int },
        {
            let next = (current.0 + dir.0, current.1 + dir.1);
            dist += 1;
            if !input.is_in(next) {
                out = true;
            } else {
                current = next;
                let cost = input.get_cost(current);
                sum = if cost > u32::MAX - sum { u32::MAX } else { sum + cost };
                if dist >= min {
                    results.push((current, dir, sum));
                }
            }
            proof {
                assert(results@ =~= sofar + input.legs_along(pos, min as int, dir, dist as int));
            }
        }
        proof {
            if dist <= max {
                input.lemma_legs_stop(pos, min as int, dir, dist as int, max as int);
            }
            assert(results@ =~= input.legs_toward(pos, min as int, max as int, dirs@, n + 1));
        }
        n += 1;
    }
    results
}

impl Input {
    /// Beyond a block that is not in the city no leg ends.
    proof fn lemma_legs_stop(&self, pos: (int, int), min: int, dir: Direction, k: int, max: int)
        requires
            k <= max,
            k < max ==> !self.leg_inside(pos, dir, k),
        ensures
            self.legs_along(pos, min, dir, max) == self.legs_along(pos, min, dir, k),
        decreases max - k,
    {
        if k < max {
            self.lemma_outside_stays(pos, dir, k, max);
            self.lemma_legs_stop(pos, min, dir, k, max - 1);
        }
    }

    /// A leg that has left the city stays out of it.
    proof fn lemma_outside_stays(&self, pos: (int, int), dir: Direction, k: int, n: int)
        requires
            k <= n,
            !self.leg_inside(pos, dir, k),
        ensures
            !self.leg_inside(pos, dir, n),
        decreases n - k,
    {
        if k < n {
            self.lemma_outside_stays(pos, dir, k, n - 1);
        }
    }
}

// ----------------------------------------------------------------------
// Ways through the city
// ----------------------------------------------------------------------

/// A leg of a way: some blocks straight on in one direction.
pub struct Leg {
    pub dir: Direction,
    pub steps: int,
}

/// A leg in the direction `dir` may follow one in the direction `last`:
/// it turns left or right, or it is the first and leads in one of the
/// four directions.
pub open spec fn may_follow(last: Option<Direction>, dir: Direction) -> bool {
    match last {
        Some(d) => d.is_compass() && (dir == d.left_of() || dir == d.right_of()),
        None => dir.is_compass(),
    }
}

/// The direction of the last leg, if there is one.
pub open spec fn last_dir(legs: Seq<Leg>) -> Option<Direction> {
    if legs.len() == 0 {
        None
    } else {
        Some(legs.last().dir)
    }
}

/// Where the legs lead from the start.
pub open spec fn route_end(start: (int, int), legs: Seq<Leg>) -> (int, int)
    decreases legs.len(),
{
    if legs.len() == 0 {
        start
    } else {
        ahead(route_end(start, legs.drop_last()), legs.last().dir, legs.last().steps)
    }
}

/// The entry that stands for a leg of `k` blocks from `pos`.
pub open spec fn entry_of(input: Input, pos: (int, int), dir: Direction, k: int) -> (
    (i32, i32),
    Direction,
    u32,
) {
    (
        (ahead(pos, dir, k).0 as i32, ahead(pos, dir, k).1 as i32),
        dir,
        capped(input.leg_cost(pos, dir, k)),
    )
}

impl Input {
    /// A crucible at `pos` that came in the direction `last` may go `k`
    /// blocks in the direction `dir`.
    pub open spec fn allows(
        &self,
        pos: (int, int),
        min: int,
        max: int,
        last: Option<Direction>,
        dir: Direction,
        k: int,
    ) -> bool {
        &&& may_follow(last, dir)
        &&& 1 <= k
        &&& min <= k <= max
        &&& self.leg_inside(pos, dir, k)
    }

    /// The legs make a way from the start: each may follow the one before
    /// it, has as many blocks as the bounds ask, and stays in the city.
    pub open spec fn route_ok(&self, start: (int, int), min: int, max: int, legs: Seq<Leg>) -> bool
        decreases legs.len(),
    {
        legs.len() == 0 || {
            &&& self.route_ok(start, min, max, legs.drop_last())
            &&& self.allows(
                route_end(start, legs.drop_last()),
                min,
                max,
                last_dir(legs.drop_last()),
                legs.last().dir,
                legs.last().steps,
            )
        }
    }

    /// The heat that the blocks of a way cost together.
    pub open spec fn route_cost(&self, start: (int, int), legs: Seq<Leg>) -> int
        decreases legs.len(),
    {
        if legs.len() == 0 {
            0
        } else {
            self.route_cost(start, legs.drop_last()) + self.leg_cost(
                route_end(start, legs.drop_last()),
                legs.last().dir,
                legs.last().steps,
            )
        }
    }

    /// The legs make a way of at least one leg from the start to the end.
    pub open spec fn is_route(
        &self,
        start: (int, int),
        end: (int, int),
        min: int,
        max: int,
        legs: Seq<Leg>,
    ) -> bool {
        legs.len() > 0 && self.route_ok(start, min, max, legs) && route_end(start, legs) == end
    }

    /// The number is the least heat that a way from the start to the end
    /// costs: some way costs as much and none costs less.
    pub open spec fn is_least_loss(
        &self,
        start: (int, int),
        end: (int, int),
        min: int,
        max: int,
        r: int,
    ) -> bool {
        &&& exists|legs: Seq<Leg>| #[trigger]
            self.is_route(start, end, min, max, legs) && self.route_cost(start, legs) == r
        &&& forall|legs: Seq<Leg>| #[trigger]
            self.is_route(start, end, min, max, legs) ==> r <= self.route_cost(start, legs)
    }

    /// A leg from the city costs no less than nothing, and a longer one no
    /// less than a shorter one.
    pub proof fn lemma_leg_cost(&self, pos: (int, int), dir: Direction, k: int)
        ensures
            self.leg_cost(pos, dir, k) >= 0,
        decreases k,
    {
        if k > 0 {
            self.lemma_leg_cost(pos, dir, k - 1);
        }
    }

    /// A way costs no less than nothing.
    pub proof fn lemma_route_cost(&self, start: (int, int), legs: Seq<Leg>)
        ensures
            self.route_cost(start, legs) >= 0,
        decreases legs.len(),
    {
        if legs.len() > 0 {
            self.lemma_route_cost(start, legs.drop_last());
            self.lemma_leg_cost(
                route_end(start, legs.drop_last()),
                legs.last().dir,
                legs.last().steps,
            );
        }
    }

    /// A leg that stays in the city ends in it.
    pub proof fn lemma_leg_ends_inside(&self, pos: (int, int), dir: Direction, k: int)
        requires
            self.inside(pos),
            self.leg_inside(pos, dir, k),
        ensures
            self.inside(ahead(pos, dir, k)),
    {
    }

    /// A way from the city ends in it.
    pub proof fn lemma_route_ends_inside(&self, start: (int, int), min: int, max: int, legs: Seq<Leg>)
        requires
            self.inside(start),
            self.route_ok(start, min, max, legs),
        ensures
            self.inside(route_end(start, legs)),
            last_dir(legs) is Some ==> last_dir(legs)->0.is_compass(),
        decreases legs.len(),
    {
        if legs.len() > 0 {
            self.lemma_route_ends_inside(start, min, max, legs.drop_last());
            crate::geometry::lemma_turns(legs.last().dir);
        }
    }

    /// The entry comes from a leg of at most `k` blocks from `pos` in the
    /// direction `dir`.
    pub open spec fn comes_along(
        &self,
        pos: (int, int),
        min: int,
        dir: Direction,
        k: int,
        e: ((i32, i32), Direction, u32),
    ) -> bool {
        exists|n: int|
            1 <= n <= k && min <= n && self.leg_inside(pos, dir, n) && e == #[trigger] entry_of(
                *self,
                pos,
                dir,
                n,
            )
    }

    /// The entries of the legs in one direction are those of the legs that
    /// stay in the city and have blocks enough.
    proof fn lemma_legs_along(&self, pos: (int, int), min: int, dir: Direction, k: int)
        ensures
            forall|m: int|
                0 <= m < self.legs_along(pos, min, dir, k).len() ==> self.comes_along(
                    pos,
                    min,
                    dir,
                    k,
                    #[trigger] self.legs_along(pos, min, dir, k)[m],
                ),
            forall|n: int|
                1 <= n <= k && min <= n && self.leg_inside(pos, dir, n) ==> self.legs_along(
                    pos,
                    min,
                    dir,
                    k,
                ).contains(#[trigger] entry_of(*self, pos, dir, n)),
        decreases k,
    {
        if k > 0 {
            self.lemma_legs_along(pos, min, dir, k - 1);
            let prev = self.legs_along(pos, min, dir, k - 1);
            let all = self.legs_along(pos, min, dir, k);
            assert forall|m: int| 0 <= m < all.len() implies self.comes_along(
                pos,
                min,
                dir,
                k,
                #[trigger] all[m],
            ) by {
                if m < prev.len() {
                    assert(all[m] == prev[m]);
                    assert(self.comes_along(pos, min, dir, k - 1, prev[m]));
                    let n = choose|n: int|
                        1 <= n <= k - 1 && min <= n && self.leg_inside(pos, dir, n) && prev[m]
                            == #[trigger] entry_of(*self, pos, dir, n);
                    assert(all[m] == entry_of(*self, pos, dir, n));
                } else {
                    assert(all[m] == entry_of(*self, pos, dir, k));
                }
            }
            assert forall|n: int|
                1 <= n <= k && min <= n && self.leg_inside(pos, dir, n) implies all.contains(
                #[trigger] entry_of(*self, pos, dir, n),
            ) by {
                if n < k {
                    assert(prev.contains(entry_of(*self, pos, dir, n)));
                    let m = choose|m: int|
                        0 <= m < prev.len() && prev[m] == entry_of(*self, pos, dir, n);
                    assert(all[m] == prev[m]);
                } else {
                    assert(all[all.len() - 1] == entry_of(*self, pos, dir, k));
                }
            }
        }
    }

    /// The entry comes from a leg that a crucible at `pos` may go.
    pub open spec fn is_next(
        &self,
        pos: (int, int),
        min: int,
        max: int,
        last: Option<Direction>,
        e: ((i32, i32), Direction, u32),
    ) -> bool {
        exists|n: int| self.allows(pos, min, max, last, e.1, n) && e == #[trigger] entry_of(*self, pos, e.1, n)
    }

    proof fn lemma_legs_toward(
        &self,
        pos: (int, int),
        min: int,
        max: int,
        dirs: Seq<Direction>,
        n: int,
    )
        requires
            0 <= n <= dirs.len(),
        ensures
            forall|m: int|
                0 <= m < self.legs_toward(pos, min, max, dirs, n).len() ==> exists|d: int|
                    0 <= d < n && self.comes_along(
                        pos,
                        min,
                        #[trigger] dirs[d],
                        max,
                        (#[trigger] self.legs_toward(pos, min, max, dirs, n)[m]),
                    ),
            forall|d: int, k: int|
                0 <= d < n && 1 <= k <= max && min <= k && self.leg_inside(pos, dirs[d], k)
                    ==> self.legs_toward(pos, min, max, dirs, n).contains(
                    #[trigger] entry_of(*self, pos, dirs[d], k),
                ),
        decreases n,
    {
        if n > 0 {
            self.lemma_legs_toward(pos, min, max, dirs, n - 1);
            self.lemma_legs_along(pos, min, dirs[n - 1], max);
            let prev = self.legs_toward(pos, min, max, dirs, n - 1);
            let more = self.legs_along(pos, min, dirs[n - 1], max);
            let all = self.legs_toward(pos, min, max, dirs, n);
            assert(all == prev + more);
            assert forall|m: int| 0 <= m < all.len() implies exists|d: int|
                0 <= d < n && self.comes_along(pos, min, #[trigger] dirs[d], max, (#[trigger] all[m])) by {
                if m < prev.len() {
                    assert(all[m] == prev[m]);
                    let d = choose|d: int|
                        0 <= d < n - 1 && self.comes_along(pos, min, #[trigger] dirs[d], max, prev[m]);
                    assert(self.comes_along(pos, min, dirs[d], max, all[m]));
                } else {
                    assert(all[m] == more[m - prev.len()]);
                    assert(self.comes_along(pos, min, dirs[n - 1], max, all[m]));
                }
            }
            assert forall|d: int, k: int|
                0 <= d < n && 1 <= k <= max && min <= k && self.leg_inside(
                    pos,
                    dirs[d],
                    k,
                ) implies all.contains(#[trigger] entry_of(*self, pos, dirs[d], k)) by {
                let e = entry_of(*self, pos, dirs[d], k);
                if d < n - 1 {
                    assert(prev.contains(e));
                    let m = choose|m: int| 0 <= m < prev.len() && prev[m] == e;
                    assert(all[m] == e);
                } else {
                    assert(more.contains(e));
                    let m = choose|m: int| 0 <= m < more.len() && more[m] == e;
                    assert(all[prev.len() + m] == e);
                }
            }
        }
    }

    /// The entries of the next positions are those of the legs that the
    /// crucible may go: each entry comes from such a leg, and each such leg
    /// has its entry.
    pub proof fn lemma_positions(&self, pos: (int, int), min: int, max: int, last: Option<Direction>)
        requires
            last is Some ==> last->0.is_compass(),
        ensures
            forall|m: int|
                0 <= m < self.positions(pos, min, max, last).len() ==> self.is_next(
                    pos,
                    min,
                    max,
                    last,
                    #[trigger] self.positions(pos, min, max, last)[m],
                ),
            forall|dir: Direction, k: int| #[trigger]
                self.allows(pos, min, max, last, dir, k) ==> self.positions(
                    pos,
                    min,
                    max,
                    last,
                ).contains(entry_of(*self, pos, dir, k)),
    {
        let dirs = next_directions(last);
        let all = self.positions(pos, min, max, last);
        self.lemma_legs_toward(pos, min, max, dirs, dirs.len() as int);
        if last is Some {
            crate::geometry::lemma_turns(last->0);
        }
        assert forall|m: int| 0 <= m < all.len() implies self.is_next(
            pos,
            min,
            max,
            last,
            #[trigger] all[m],
        ) by {
            let d = choose|d: int|
                0 <= d < dirs.len() && self.comes_along(pos, min, #[trigger] dirs[d], max, all[m]);
            let n = choose|n: int|
                1 <= n <= max && min <= n && self.leg_inside(pos, dirs[d], n) && all[m]
                    == #[trigger] entry_of(*self, pos, dirs[d], n);
            assert(all[m].1 == dirs[d]);
            assert(may_follow(last, dirs[d]));
            assert(self.allows(pos, min, max, last, all[m].1, n));
        }
        assert forall|dir: Direction, k: int| #[trigger]
            self.allows(pos, min, max, last, dir, k) implies all.contains(
            entry_of(*self, pos, dir, k),
        ) by {
            let d = choose|d: int| 0 <= d < dirs.len() && dirs[d] == dir;
            if last is None {
                assert(dirs[0] == Direction(0, 1));
                assert(dirs[1] == Direction(1, 0));
                assert(dirs[2] == Direction(0, -1i32));
                assert(dirs[3] == Direction(-1i32, 0));
            } else {
                assert(dirs[0] == last->0.left_of());
                assert(dirs[1] == last->0.right_of());
            }
            assert(0 <= d < dirs.len() && dirs[d] == dir);
            assert(all.contains(entry_of(*self, pos, dirs[d], k)));
        }
    }
}

// ----------------------------------------------------------------------
// The search for the least heat
// ----------------------------------------------------------------------

/// A position as a pair of integers.
pub open spec fn at(pos: (i32, i32)) -> (int, int) {
    (pos.0 as int, pos.1 as int)
}

/// The number of a direction among the four.
pub open spec fn dir_index(dir: Direction) -> int {
    if dir == Direction(0, 1) {
        0
    } else if dir == Direction(1, 0) {
        1
    } else if dir == Direction(0, -1i32) {
        2
    } else {
        3
    }
}

/// The least heat found so far for a position and the direction of the
/// last leg to it. The table has four rows for each row of the city.
pub open spec fn known(dist: Seq<Vec<u32>>, pos: (int, int), dir: Direction) -> u32 {
    dist[4 * pos.0 + dir_index(dir)]@[pos.1]
}

/// The table has four rows for each row of the city, each as wide as the
/// city.
pub open spec fn table_fits(dist: Seq<Vec<u32>>, input: Input) -> bool {
    &&& dist.len() == 4 * input.size.0
    &&& forall|r: int| 0 <= r < dist.len() ==> (#[trigger] dist[r])@.len() == input.size.1
}

/// The state of a crucible that has lost the heat known for a position
/// and a direction.
pub open spec fn state_of(dist: Seq<Vec<u32>>, a: int, b: int, dir: Direction) -> State {
    State { heat_loss: known(dist, (a, b), dir), pos: (a as i32, b as i32), dir: Some(dir) }
}

impl Input {
    /// Some way from the start leads to the state: it ends where the
    /// crucible is, with the direction and the heat of the state.
    pub open spec fn witnessed(&self, start: (int, int), min: int, max: int, e: State) -> bool {
        &&& self.inside(at(e.pos))
        &&& e.dir is Some ==> e.dir->0.is_compass()
        &&& exists|legs: Seq<Leg>| #[trigger]
            self.route_ok(start, min, max, legs) && route_end(start, legs) == at(e.pos) && last_dir(
                legs,
            ) == e.dir && self.route_cost(start, legs) == e.heat_loss
    }

    /// Every heat in the table is that of some way.
    pub open spec fn sound(&self, start: (int, int), min: int, max: int, dist: Seq<Vec<u32>>) -> bool {
        forall|a: int, b: int, dir: Direction|
            self.inside((a, b)) && dir.is_compass() && known(dist, (a, b), dir) < u32::MAX
                ==> self.witnessed(start, min, max, #[trigger] state_of(dist, a, b, dir))
    }

    /// Every state that waits from `head` on is that of some way.
    pub open spec fn queue_ok(
        &self,
        start: (int, int),
        min: int,
        max: int,
        pending: Seq<State>,
        head: int,
    ) -> bool {
        forall|q: int| head <= q < pending.len() ==> self.witnessed(start, min, max, #[trigger] pending[q])
    }

    /// No leg from the state gives less heat than the table knows.
    pub open spec fn settled(&self, dist: Seq<Vec<u32>>, min: int, max: int, e: State) -> bool {
        forall|dir: Direction, k: int| #[trigger]
            self.allows(at(e.pos), min, max, e.dir, dir, k) ==> known(
                dist,
                ahead(at(e.pos), dir, k),
                dir,
            ) <= capped(e.heat_loss + self.leg_cost(at(e.pos), dir, k))
    }

    /// The state is settled, or it waits, or it is the one at hand.
    pub open spec fn cared(
        &self,
        dist: Seq<Vec<u32>>,
        min: int,
        max: int,
        pending: Seq<State>,
        head: int,
        current: Option<State>,
        e: State,
    ) -> bool {
        ||| self.settled(dist, min, max, e)
        ||| waits(pending, head, e)
        ||| current == Some(e)
    }

    /// The start and every state that the table knows are cared for.
    pub open spec fn all_cared(
        &self,
        start: (int, int),
        dist: Seq<Vec<u32>>,
        min: int,
        max: int,
        pending: Seq<State>,
        head: int,
        current: Option<State>,
    ) -> bool {
        &&& self.cared(dist, min, max, pending, head, current, origin(start))
        &&& forall|a: int, b: int, dir: Direction|
            self.inside((a, b)) && dir.is_compass() && known(dist, (a, b), dir) < u32::MAX
                ==> self.cared(
                dist,
                min,
                max,
                pending,
                head,
                current,
                #[trigger] state_of(dist, a, b, dir),
            )
    }

    /// What holds of the table and of the states that wait while the
    /// search goes on.
    pub open spec fn searching(
        &self,
        start: (int, int),
        min: int,
        max: int,
        dist: Seq<Vec<u32>>,
        pending: Seq<State>,
        head: int,
        current: Option<State>,
    ) -> bool {
        &&& self.is_valid()
        &&& self.inside(start)
        &&& 0 <= head <= pending.len()
        &&& table_fits(dist, *self)
        &&& self.sound(start, min, max, dist)
        &&& self.queue_ok(start, min, max, pending, head)
        &&& self.all_cared(start, dist, min, max, pending, head, current)
    }
}

/// The state of a crucible at the start that has not moved.
pub open spec fn origin(start: (int, int)) -> State {
    State { heat_loss: 0, pos: (start.0 as i32, start.1 as i32), dir: None }
}

/// The state waits at `head` or behind it.
pub open spec fn waits(pending: Seq<State>, head: int, e: State) -> bool {
    exists|q: int| head <= q < pending.len() && #[trigger] pending[q] == e
}

/// No heat of the second table is above that of the first.
pub open spec fn no_more(input: Input, after: Seq<Vec<u32>>, before: Seq<Vec<u32>>) -> bool {
    forall|a: int, b: int, dir: Direction|
        input.inside((a, b)) && dir.is_compass() ==> #[trigger] known(after, (a, b), dir) <= known(
            before,
            (a, b),
            dir,
        )
}

/// The number of a direction among the four.
fn index_of(dir: Direction) -> (r: usize)
    requires
        dir.is_compass(),
    ensures
        r == dir_index(dir),
        r < 4,
{
    if dir.0 == 0 && dir.1 == 1 {
        0
    } else if dir.0 == 1 && dir.1 == 0 {
        1
    } else if dir.0 == 0 && dir.1 == -1 {
        2
    } else {
        3
    }
}

impl Input {
    /// A state that is settled stays so when heats of the table go down.
    proof fn lemma_settled_stays(
        &self,
        before: Seq<Vec<u32>>,
        after: Seq<Vec<u32>>,
        min: int,
        max: int,
        e: State,
    )
        requires
            self.inside(at(e.pos)),
            no_more(*self, after, before),
            self.settled(before, min, max, e),
        ensures
            self.settled(after, min, max, e),
    {
        assert forall|dir: Direction, k: int| #[trigger]
            self.allows(at(e.pos), min, max, e.dir, dir, k) implies known(
            after,
            ahead(at(e.pos), dir, k),
            dir,
        ) <= capped(e.heat_loss + self.leg_cost(at(e.pos), dir, k)) by {
            self.lemma_leg_ends_inside(at(e.pos), dir, k);
            self.lemma_allowed_is_compass(at(e.pos), min, max, e.dir, dir, k);
            let p = ahead(at(e.pos), dir, k);
            assert(known(after, (p.0, p.1), dir) <= known(before, (p.0, p.1), dir));
        }
    }

    /// A leg that is allowed leads in one of the four directions.
    proof fn lemma_allowed_is_compass(
        &self,
        pos: (int, int),
        min: int,
        max: int,
        last: Option<Direction>,
        dir: Direction,
        k: int,
    )
        requires
            self.allows(pos, min, max, last, dir, k),
        ensures
            dir.is_compass(),
    {
        if last is Some {
            crate::geometry::lemma_turns(last->0);
        }
    }
}

/// Takes one leg from the state at hand: if it gives less heat than the
/// table knows for where it ends, the table learns it and the new state
/// waits.
fn relax(
    input: &Input,
    dist: &mut Vec<Vec<u32>>,
    pending: &mut Vec<State>,
    e: State,
    entry: ((i32, i32), Direction, u32),
    Ghost(start): Ghost<(int, int)>,
    Ghost(min): Ghost<int>,
    Ghost(max): Ghost<int>,
    Ghost(head): Ghost<int>,
)
    requires
        input.searching(start, min, max, old(dist)@, old(pending)@, head, Some(e)),
        input.witnessed(start, min, max, e),
        input.is_next(at(e.pos), min, max, e.dir, entry),
    ensures
        input.searching(start, min, max, final(dist)@, final(pending)@, head, Some(e)),
        no_more(*input, final(dist)@, old(dist)@),
        final(pending)@.len() >= old(pending)@.len(),
        forall|q: int| 0 <= q < old(pending)@.len() ==> final(pending)@[q] == old(pending)@[q],
        sum_of_rows(final(dist)@) + (final(pending)@.len() - old(pending)@.len()) <= sum_of_rows(
            old(dist)@,
        ),
        known(final(dist)@, at(entry.0), entry.1) <= capped(e.heat_loss + entry.2),
{
    let ghost dist0 = dist@;
    let ghost pending0 = pending@;
    let (pos2, dir2, cost) = entry;
    let ghost n = choose|n: int|
        input.allows(at(e.pos), min, max, e.dir, entry.1, n) && entry == #[trigger] entry_of(
            *input,
            at(e.pos),
            entry.1,
            n,
        );
    proof {
        input.lemma_leg_ends_inside(at(e.pos), dir2, n);
        input.lemma_allowed_is_compass(at(e.pos), min, max, e.dir, dir2, n);
        input.lemma_leg_cost(at(e.pos), dir2, n);
        assert(at(pos2) == ahead(at(e.pos), dir2, n));
    }
    let total: u32 = if cost > u32::MAX - e.heat_loss {
        u32::MAX
    } else {
        e.heat_loss + cost
    };
    let d = index_of(dir2);
    let rows = dist.len();
    assert(4 * pos2.0 + d < rows);
    let row: usize = 4 * (pos2.0 as usize) + d;
    let col: usize = pos2.1 as usize;
    assert(dist@[row as int]@.len() == input.size.1);
    if total < dist[row][col] {
        dist[row][col] = total;
        let next = State { heat_loss: total, pos: pos2, dir: Some(dir2) };
        pending.push(next);
        proof {
            let dist1 = dist@;
            let pending1 = pending@;
            lemma_sum_of_rows_update(dist0, dist1, row as int, col as int, total);
            assert forall|r: int| 0 <= r < dist1.len() implies (#[trigger] dist1[r])@.len()
                == input.size.1 by {
                assert(dist0[r]@.len() == input.size.1);
            }
            // Every heat but the new one is as it was.
            assert forall|a: int, b: int, dir: Direction|
                input.inside((a, b)) && dir.is_compass() implies (#[trigger] known(
                dist1,
                (a, b),
                dir,
            )) == if (a, b) == at(pos2) && dir == dir2 {
                total
            } else {
                known(dist0, (a, b), dir)
            } by {
                if 4 * a + dir_index(dir) != row as int {
                    assert(dist1[4 * a + dir_index(dir)] == dist0[4 * a + dir_index(dir)]);
                }
            }
            assert(no_more(*input, dist1, dist0));
            // The new state is that of a way: the way to the state at
            // hand, and the leg.
            let legs = choose|legs: Seq<Leg>| #[trigger]
                input.route_ok(start, min, max, legs) && route_end(start, legs) == at(e.pos)
                    && last_dir(legs) == e.dir && input.route_cost(start, legs) == e.heat_loss;
            let way = legs.push(Leg { dir: dir2, steps: n });
            assert(way.drop_last() =~= legs);
            assert(input.route_ok(start, min, max, way));
            assert(route_end(start, way) == at(pos2));
            assert(input.route_cost(start, way) == total);
            assert(input.witnessed(start, min, max, next));
            assert(state_of(dist1, pos2.0 as int, pos2.1 as int, dir2) == next);
            assert(pending1[pending0.len() as int] == next);
            assert(waits(pending1, head, next));
            assert forall|a: int, b: int, dir: Direction|
                input.inside((a, b)) && dir.is_compass() && known(dist1, (a, b), dir)
                    < u32::MAX implies input.witnessed(
                start,
                min,
                max,
                #[trigger] state_of(dist1, a, b, dir),
            ) by {
                if !((a, b) == at(pos2) && dir == dir2) {
                    assert(state_of(dist1, a, b, dir) == state_of(dist0, a, b, dir));
                }
            }
            assert forall|q: int| head <= q < pending1.len() implies input.witnessed(
                start,
                min,
                max,
                #[trigger] pending1[q],
            ) by {
                if q < pending0.len() {
                    assert(pending1[q] == pending0[q]);
                }
            }
            input.lemma_cared_stays(start, dist0, dist1, min, max, pending0, pending1, head, Some(e), origin(start));
            assert forall|a: int, b: int, dir: Direction|
                input.inside((a, b)) && dir.is_compass() && known(dist1, (a, b), dir)
                    < u32::MAX implies input.cared(
                dist1,
                min,
                max,
                pending1,
                head,
                Some(e),
                #[trigger] state_of(dist1, a, b, dir),
            ) by {
                if !((a, b) == at(pos2) && dir == dir2) {
                    let st = state_of(dist0, a, b, dir);
                    assert(state_of(dist1, a, b, dir) == st);
                    assert(input.cared(dist0, min, max, pending0, head, Some(e), st));
                    input.lemma_cared_stays(start, dist0, dist1, min, max, pending0, pending1, head, Some(e), st);
                }
            }
        }
    } else {
        proof {
            assert(no_more(*input, dist@, dist0));
        }
    }
}

impl Input {
    /// A state that is cared for stays so when heats of the table go down
    /// and more states wait.
    proof fn lemma_cared_stays(
        &self,
        start: (int, int),
        before: Seq<Vec<u32>>,
        after: Seq<Vec<u32>>,
        min: int,
        max: int,
        pending0: Seq<State>,
        pending1: Seq<State>,
        head: int,
        current: Option<State>,
        e: State,
    )
        requires
            0 <= head,
            self.inside(at(e.pos)),
            no_more(*self, after, before),
            pending1.len() >= pending0.len(),
            forall|q: int| 0 <= q < pending0.len() ==> pending1[q] == pending0[q],
            self.cared(before, min, max, pending0, head, current, e),
        ensures
            self.cared(after, min, max, pending1, head, current, e),
    {
        if self.settled(before, min, max, e) {
            self.lemma_settled_stays(before, after, min, max, e);
        } else if waits(pending0, head, e) {
            let q = choose|q: int| head <= q < pending0.len() && #[trigger] pending0[q] == e;
            assert(pending1[q] == e);
        }
    }
}

/// The direction with a number among the four.
pub open spec fn rose(d: int) -> Direction {
    if d == 0 {
        Direction(0, 1)
    } else if d == 1 {
        Direction(1, 0)
    } else if d == 2 {
        Direction(0, -1i32)
    } else {
        Direction(-1i32, 0)
    }
}

impl Input {
    /// When no state waits any more, the table knows for the end of every
    /// way no more heat than the way costs.
    proof fn lemma_done(
        &self,
        start: (int, int),
        min: int,
        max: int,
        dist: Seq<Vec<u32>>,
        pending: Seq<State>,
        legs: Seq<Leg>,
    )
        requires
            self.searching(start, min, max, dist, pending, pending.len() as int, None),
            legs.len() > 0,
            self.route_ok(start, min, max, legs),
        ensures
            known(dist, route_end(start, legs), legs.last().dir) <= capped(
                self.route_cost(start, legs),
            ),
        decreases legs.len(),
    {
        let before = legs.drop_last();
        let leg = legs.last();
        let p = route_end(start, before);
        self.lemma_route_ends_inside(start, min, max, before);
        self.lemma_route_cost(start, before);
        self.lemma_leg_cost(p, leg.dir, leg.steps);
        if before.len() == 0 {
            let st = origin(start);
            assert(self.cared(dist, min, max, pending, pending.len() as int, None, st));
            assert(self.settled(dist, min, max, st));
            assert(self.allows(at(st.pos), min, max, st.dir, leg.dir, leg.steps));
        } else {
            self.lemma_done(start, min, max, dist, pending, before);
            let d0 = before.last().dir;
            let h = known(dist, p, d0);
            if h < u32::MAX {
                let st = state_of(dist, p.0, p.1, d0);
                assert(self.cared(dist, min, max, pending, pending.len() as int, None, st));
                assert(self.settled(dist, min, max, st));
                assert(self.allows(at(st.pos), min, max, st.dir, leg.dir, leg.steps));
            }
        }
    }
}

/// A table that knows no heat yet: four rows for each row of the city,
/// with the largest 32-bit number everywhere.
fn unknown_table(rows: usize, cols: usize) -> (dist: Vec<Vec<u32>>)
    ensures
        dist@.len() == 4 * rows,
        forall|r: int| 0 <= r < dist@.len() ==> (#[trigger] dist@[r])@.len() == cols,
        forall|r: int, c: int|
            0 <= r < dist@.len() && 0 <= c < cols ==> (#[trigger] dist@[r]@[c]) == u32::MAX,
{
    let mut dist: Vec<Vec<u32>> = Vec::new();
    let mut i: usize = 0;
    while i < rows
        invariant
            i <= rows,
            dist@.len() == 4 * i,
            forall|r: int| 0 <= r < dist@.len() ==> (#[trigger] dist@[r])@.len() == cols,
            forall|r: int, c: int|
                0 <= r < dist@.len() && 0 <= c < cols ==> (#[trigger] dist@[r]@[c]) == u32::MAX,
        decreases rows - i,
    {
        let mut d: usize = 0;
        while d < 4
            invariant
                d <= 4,
                dist@.len() == 4 * i + d,
                forall|r: int| 0 <= r < dist@.len() ==> (#[trigger] dist@[r])@.len() == cols,
                forall|r: int, c: int|
                    0 <= r < dist@.len() && 0 <= c < cols ==> (#[trigger] dist@[r]@[c])
                        == u32::MAX,
            decreases 4 - d,
        {
            let mut row: Vec<u32> = Vec::new();
            let mut j: usize = 0;
            while j < cols
                invariant
                    j <= cols,
                    row@.len() == j,
                    forall|c: int| 0 <= c < j ==> row@[c] == u32::MAX,
                decreases cols - j,
            {
                row.push(u32::MAX);
                j += 1;
            }
            dist.push(row);
            d += 1;
        }
        i += 1;
    }
    dist
}

/// The least heat that a way from the start to the end costs, where each
/// leg has `min_steps` to `max_steps` blocks.
pub fn find_min_heat_loss(
    input: Input,
    start: (i32, i32),
    end: (i32, i32),
    min_steps: i32,
    max_steps: i32,
) -> (r: u32)
    requires
        input.is_valid(),
        input.inside(at(start)),
        input.inside(at(end)),
        exists|legs: Seq<Leg>| #[trigger]
            input.is_route(at(start), at(end), min_steps as int, max_steps as int, legs)
                && input.route_cost(at(start), legs) < u32::MAX,
    ensures
        input.is_least_loss(at(start), at(end), min_steps as int, max_steps as int, r as int),
{
    let ghost from = at(start);
    let ghost min = min_steps as int;
    let ghost max = max_steps as int;
    let mut dist = unknown_table(input.size.0 as usize, input.size.1 as usize);
    let mut pending: Vec<State> = Vec::new();
    pending.push(State { heat_loss: 0, pos: start, dir: None });
    let mut head: usize = 0;
    proof {
        let none = Seq::<Leg>::empty();
        assert(input.route_ok(from, min, max, none));
        assert(pending@[0] == origin(from));
        assert(input.witnessed(from, min, max, pending@[0]));
        assert(waits(pending@, 0, origin(from)));
        assert forall|a: int, b: int, dir: Direction|
            input.inside((a, b)) && dir.is_compass() implies known(dist@, (a, b), dir)
            == u32::MAX by {
            assert(dist@[4 * a + dir_index(dir)]@[b] == u32::MAX);
        }
    }
    while head < pending.len()
        invariant
            from == at(start),
            min == min_steps as int,
            max == max_steps as int,
            input.searching(from, min, max, dist@, pending@, head as int, None),
        decreases sum_of_rows(dist@), pending@.len() - head,
    {
        let e = pending[head];
        let ghost sum0 = sum_of_rows(dist@);
        let ghost len0 = pending@.len();
        let ghost head0 = head as int;
        proof {
            assert(input.witnessed(from, min, max, pending@[head as int]));
            assert(input.cared(dist@, min, max, pending@, head0 + 1, Some(e), origin(from))) by {
                input.lemma_taken(dist@, min, max, pending@, head0, origin(from));
            }
            assert forall|a: int, b: int, dir: Direction|
                input.inside((a, b)) && dir.is_compass() && known(dist@, (a, b), dir)
                    < u32::MAX implies input.cared(
                dist@,
                min,
                max,
                pending@,
                head0 + 1,
                Some(e),
                #[trigger] state_of(dist@, a, b, dir),
            ) by {
                input.lemma_taken(dist@, min, max, pending@, head0, state_of(dist@, a, b, dir));
            }
        }
        head += 1;
        let list = get_positions(&input, e.pos, min_steps, max_steps, e.dir);
        proof {
            input.lemma_positions(at(e.pos), min, max, e.dir);
        }
        let mut m: usize = 0;
        while m < list.len()
            invariant
                m <= list@.len(),
                head == head0 + 1,
                head <= len0 <= pending@.len(),
                input.searching(from, min, max, dist@, pending@, head as int, Some(e)),
                input.witnessed(from, min, max, e),
                list@ == input.positions(at(e.pos), min, max, e.dir),
                forall|k: int|
                    0 <= k < list@.len() ==> input.is_next(at(e.pos), min, max, e.dir, #[trigger] list@[k]),
                forall|k: int|
                    0 <= k < m ==> known(dist@, at((#[trigger] list@[k]).0), list@[k].1) <= capped(
                        e.heat_loss + list@[k].2,
                    ),
                sum_of_rows(dist@) + (pending@.len() - len0) <= sum0,
            decreases list@.len() - m,
        {
            let ghost dist0 = dist@;
            relax(
                &input,
                &mut dist,
                &mut pending,
                e,
                list[m],
                Ghost(from),
                Ghost(min),
                Ghost(max),
                Ghost(head as int),
            );
            proof {
                assert forall|k: int| 0 <= k < m + 1 implies known(
                    dist@,
                    at((#[trigger] list@[k]).0),
                    list@[k].1,
                ) <= capped(e.heat_loss + list@[k].2) by {
                    if k < m {
                        input.lemma_next_is_inside(at(e.pos), min, max, e.dir, list@[k]);
                        let p = at(list@[k].0);
                        assert(known(dist@, (p.0, p.1), list@[k].1) <= known(
                            dist0,
                            (p.0, p.1),
                            list@[k].1,
                        ));
                    }
                }
            }
            m += 1;
        }
        proof {
            // Every leg from the state has been taken: the state is
            // settled.
            assert forall|dir: Direction, k: int| #[trigger]
                input.allows(at(e.pos), min, max, e.dir, dir, k) implies known(
                dist@,
                ahead(at(e.pos), dir, k),
                dir,
            ) <= capped(e.heat_loss + input.leg_cost(at(e.pos), dir, k)) by {
                let entry = entry_of(input, at(e.pos), dir, k);
                assert(list@.contains(entry));
                let idx = choose|idx: int| 0 <= idx < list@.len() && list@[idx] == entry;
                input.lemma_leg_ends_inside(at(e.pos), dir, k);
                input.lemma_leg_cost(at(e.pos), dir, k);
                assert(at(list@[idx].0) == ahead(at(e.pos), dir, k));
            }
            assert(input.settled(dist@, min, max, e));
        }
    }
    let mut best: u32 = u32::MAX;
    let mut d: usize = 0;
    let rows = dist.len();
    while d < 4
        invariant
            d <= 4,
            rows == dist@.len(),
            table_fits(dist@, input),
            input.inside(at(end)),
            forall|k: int| 0 <= k < d ==> best <= known(dist@, at(end), #[trigger] rose(k)),
            best == u32::MAX || exists|k: int|
                0 <= k < d && best == known(dist@, at(end), #[trigger] rose(k)),
        decreases 4 - d,
    {
        assert(4 * end.0 + d < rows);
        let row: usize = 4 * (end.0 as usize) + d;
        assert(dist@[row as int]@.len() == input.size.1);
        let heat = dist[row][end.1 as usize];
        assert(heat == known(dist@, at(end), rose(d as int)));
        if heat < best {
            best = heat;
        }
        d += 1;
    }
    proof {
        let to = at(end);
        assert forall|legs: Seq<Leg>| #[trigger]
            input.is_route(from, to, min, max, legs) implies best <= input.route_cost(
            from,
            legs,
        ) by {
            input.lemma_done(from, min, max, dist@, pending@, legs);
            input.lemma_route_ends_inside(from, min, max, legs);
            input.lemma_route_cost(from, legs);
            let dir = legs.last().dir;
            assert(rose(dir_index(dir)) == dir);
            assert(best <= known(dist@, to, rose(dir_index(dir))));
        }
        let some = choose|legs: Seq<Leg>| #[trigger]
            input.is_route(from, to, min, max, legs) && input.route_cost(from, legs) < u32::MAX;
        assert(best <= input.route_cost(from, some));
        let k = choose|k: int| 0 <= k < 4 && best == known(dist@, to, #[trigger] rose(k));
        let st = state_of(dist@, to.0, to.1, rose(k));
        assert(input.witnessed(from, min, max, st));
        let way = choose|legs: Seq<Leg>| #[trigger]
            input.route_ok(from, min, max, legs) && route_end(from, legs) == at(st.pos) && last_dir(
                legs,
            ) == st.dir && input.route_cost(from, legs) == st.heat_loss;
        assert(input.is_route(from, to, min, max, way));
    }
    best
}

impl Input {
    /// A state that was cared for while the state at `head` waited is
    /// cared for when that state is at hand.
    proof fn lemma_taken(
        &self,
        dist: Seq<Vec<u32>>,
        min: int,
        max: int,
        pending: Seq<State>,
        head: int,
        e: State,
    )
        requires
            0 <= head < pending.len(),
            self.cared(dist, min, max, pending, head, None, e),
        ensures
            self.cared(dist, min, max, pending, head + 1, Some(pending[head]), e),
    {
        if !self.settled(dist, min, max, e) {
            let q = choose|q: int| head <= q < pending.len() && #[trigger] pending[q] == e;
            if q > head {
                assert(waits(pending, head + 1, e));
            }
        }
    }

    /// The entry of a leg that is allowed ends in the city and leads in
    /// one of the four directions.
    proof fn lemma_next_is_inside(
        &self,
        pos: (int, int),
        min: int,
        max: int,
        last: Option<Direction>,
        e: ((i32, i32), Direction, u32),
    )
        requires
            self.inside(pos),
            self.is_next(pos, min, max, last, e),
        ensures
            self.inside(at(e.0)),
            e.1.is_compass(),
    {
        let n = choose|n: int|
            self.allows(pos, min, max, last, e.1, n) && e == #[trigger] entry_of(*self, pos, e.1, n);
        self.lemma_leg_ends_inside(pos, e.1, n);
        self.lemma_allowed_is_compass(pos, min, max, last, e.1, n);
    }
}

/// The least heat that a way from the first block to the last costs with
/// legs of one to three blocks.
pub fn part1(input: Input) -> (r: u32)
    requires
        input.is_valid(),
        exists|legs: Seq<Leg>| #[trigger]
            input.is_route((0, 0), (input.size.0 - 1, input.size.1 - 1), 1, 3, legs)
                && input.route_cost((0, 0), legs) < u32::MAX,
    ensures
        input.is_least_loss((0, 0), (input.size.0 - 1, input.size.1 - 1), 1, 3, r as int),
{
    let start: (i32, i32) = (0, 0);
    proof {
        input.lemma_route_needs_room((0, 0), (input.size.0 - 1, input.size.1 - 1), 1, 3);
    }
    let end: (i32, i32) = (input.size.0 - 1, input.size.1 - 1);
    find_min_heat_loss(input, start, end, 1, 3)
}

/// The least heat that a way from the first block to the last costs with
/// legs of four to ten blocks.
pub fn part2(input: Input) -> (r: u32)
    requires
        input.is_valid(),
        exists|legs: Seq<Leg>| #[trigger]
            input.is_route((0, 0), (input.size.0 - 1, input.size.1 - 1), 4, 10, legs)
                && input.route_cost((0, 0), legs) < u32::MAX,
    ensures
        input.is_least_loss((0, 0), (input.size.0 - 1, input.size.1 - 1), 4, 10, r as int),
{
    let start: (i32, i32) = (0, 0);
    proof {
        input.lemma_route_needs_room((0, 0), (input.size.0 - 1, input.size.1 - 1), 4, 10);
    }
    let end: (i32, i32) = (input.size.0 - 1, input.size.1 - 1);
    find_min_heat_loss(input, start, end, 4, 10)
}

impl Input {
    /// A way of at least one leg ends in the city, so the city has a
    /// block.
    proof fn lemma_route_needs_room(&self, start: (int, int), end: (int, int), min: int, max: int)
        requires
            exists|legs: Seq<Leg>| #[trigger] self.is_route(start, end, min, max, legs),
        ensures
            self.inside(end),
    {
        let legs = choose|legs: Seq<Leg>| #[trigger] self.is_route(start, end, min, max, legs);
        assert(self.allows(
            route_end(start, legs.drop_last()),
            min,
            max,
            last_dir(legs.drop_last()),
            legs.last().dir,
            legs.last().steps,
        ));
    }
}

// ----------------------------------------------------------------------
// Reading twice
// ----------------------------------------------------------------------


/// Reading a text twice gives the same value: two cities that one text
/// says have the same size and the same heat in every block.
pub proof fn lemma_parse_is_unique(a: Input, b: Input, text: Seq<u8>)
    requires
        a.is_parse_of(text),
        b.is_parse_of(text),
    ensures
        a.size == b.size,
        a.map@.len() == b.map@.len(),
        forall|i: int| 0 <= i < a.map@.len() ==> (#[trigger] a.map@[i])@ == b.map@[i]@,
{
    assert forall|i: int| 0 <= i < a.map@.len() implies (#[trigger] a.map@[i])@ == b.map@[i]@ by {
        assert(a.map@[i]@ =~= b.map@[i]@);
    }
}

/// The least heat is one number: two numbers that are the least heat of
/// the ways between two blocks are equal.
pub proof fn lemma_least_loss_is_unique(
    input: Input,
    start: (int, int),
    end: (int, int),
    min: int,
    max: int,
    r1: int,
    r2: int,
)
    requires
        input.is_least_loss(start, end, min, max, r1),
        input.is_least_loss(start, end, min, max, r2),
    ensures
        r1 == r2,
{
    let w1 = choose|legs: Seq<Leg>| #[trigger]
        input.is_route(start, end, min, max, legs) && input.route_cost(start, legs) == r1;
    let w2 = choose|legs: Seq<Leg>| #[trigger]
        input.is_route(start, end, min, max, legs) && input.route_cost(start, legs) == r2;
    assert(r1 <= input.route_cost(start, w2));
    assert(r2 <= input.route_cost(start, w1));
}

} // verus!
