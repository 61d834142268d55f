//! A square platform holds round rocks that roll and cube rocks that stay.
//! The first part tilts the platform to the north and asks for the load on
//! the north beams. The second part spins the platform a thousand million
//! times, each spin tilting it north, west, south and east, and asks for
//! the load afterwards.

use crate::geometry::Direction;
use crate::text::{ascii_bytes, lines, rows_of, split_lines, to_ascii, ParseError};
use vstd::prelude::*;

verus! {

/// The platform, row by row, and the length of its side.
#[derive(Debug, PartialEq, Eq)]
pub struct Input {
    pub map: Vec<Vec<char>>,
    pub size: usize,
}

/// A round rock.
pub const ROUND: char = 'O';

/// An empty place.
pub const FREE: char = '.';

/// The number of spins of the second part.
pub const SPINS: i32 = 1000000000;

/// What the rows of a platform hold.
pub open spec fn grid_of(v: Seq<Vec<char>>) -> Seq<Seq<char>> {
    Seq::new(v.len(), |i: int| v[i]@)
}

/// The platform holds a square of the given side.
pub open spec fn is_square(grid: Seq<Seq<char>>, size: int) -> bool {
    &&& grid.len() >= size
    &&& forall|i: int| 0 <= i < size ==> (#[trigger] grid[i]).len() >= size
}

/// The grid with the place `p` set to `c`.
pub open spec fn put(grid: Seq<Seq<char>>, p: (int, int), c: char) -> Seq<Seq<char>> {
    grid.update(p.0, grid[p.0].update(p.1, c))
}

/// The place lies in the square and is empty.
pub open spec fn is_free(grid: Seq<Seq<char>>, size: int, p: (int, int)) -> bool {
    0 <= p.0 < size && 0 <= p.1 < size && grid[p.0][p.1] == FREE
}

/// Where a rock at `p` comes to rest when it rolls in the direction `dir`
/// over at most `n` empty places.
pub open spec fn landing(grid: Seq<Seq<char>>, size: int, p: (int, int), dir: Direction, n: nat)
    -> (int, int)
    decreases n,
{
    let next = (p.0 + dir.0, p.1 + dir.1);
    if n > 0 && is_free(grid, size, next) {
        landing(grid, size, next, dir, (n - 1) as nat)
    } else {
        p
    }
}

/// The grid after the rock at `p`, if there is a round one, has rolled in
/// the direction `dir` as far as it can.
pub open spec fn roll(grid: Seq<Seq<char>>, size: int, p: (int, int), dir: Direction) -> Seq<
    Seq<char>,
> {
    if grid[p.0][p.1] == ROUND {
        put(put(grid, p, FREE), landing(grid, size, p, dir, size as nat), ROUND)
    } else {
        grid
    }
}

/// The place that a tilt looks at as number `t` of its line `i`. A tilt to
/// the north or south goes along the columns, one to the west or east along
/// the rows; one to the north or west starts at the low end of the line,
/// the others at the high end, so that rocks in front roll first.
pub open spec fn place(size: int, dir: Direction, i: int, t: int) -> (int, int) {
    let j = if dir.0 + dir.1 == -1 {
        t
    } else {
        size - 1 - t
    };
    if dir.0 != 0 {
        (j, i)
    } else {
        (i, j)
    }
}

/// The grid after a tilt has looked at the first `t` places of line `i`.
pub open spec fn tilt_line(grid: Seq<Seq<char>>, size: int, dir: Direction, i: int, t: int)
    -> Seq<Seq<char>>
    decreases t,
{
    if t <= 0 {
        grid
    } else {
        roll(tilt_line(grid, size, dir, i, t - 1), size, place(size, dir, i, t - 1), dir)
    }
}

/// The grid after a tilt has gone through the first `i` lines.
pub open spec fn tilt_lines(grid: Seq<Seq<char>>, size: int, dir: Direction, i: int) -> Seq<
    Seq<char>,
>
    decreases i,
{
    if i <= 0 {
        grid
    } else {
        tilt_line(tilt_lines(grid, size, dir, i - 1), size, dir, i - 1, size)
    }
}

/// The grid after a tilt in the direction `dir`.
pub open spec fn tilted(grid: Seq<Seq<char>>, size: int, dir: Direction) -> Seq<Seq<char>> {
    tilt_lines(grid, size, dir, size)
}

/// The grid after one spin: a tilt to the north, the west, the south and
/// the east.
pub open spec fn spun(grid: Seq<Seq<char>>, size: int) -> Seq<Seq<char>> {
    tilted(
        tilted(
            tilted(tilted(grid, size, Direction(-1i32, 0)), size, Direction(0, -1i32)),
            size,
            Direction(1, 0),
        ),
        size,
        Direction(0, 1),
    )
}

/// The grid after `k` spins.
pub open spec fn after_spins(grid: Seq<Seq<char>>, size: int, k: nat) -> Seq<Seq<char>>
    decreases k,
{
    if k == 0 {
        grid
    } else {
        spun(after_spins(grid, size, (k - 1) as nat), size)
    }
}

/// The load of the round rocks among the first `j` places of row `i`: each
/// weighs as many as there are rows from its own to the south edge.
pub open spec fn load_in_row(grid: Seq<Seq<char>>, size: int, i: int, j: int) -> int
    decreases j,
{
    if j <= 0 {
        0
    } else {
        load_in_row(grid, size, i, j - 1) + if grid[i][j - 1] == ROUND {
            size - i
        } else {
            0
        }
    }
}

/// The load of the round rocks in the first `i` rows.
pub open spec fn load_in_rows(grid: Seq<Seq<char>>, size: int, i: int) -> int
    decreases i,
{
    if i <= 0 {
        0
    } else {
        load_in_rows(grid, size, i - 1) + load_in_row(grid, size, i - 1, size)
    }
}

/// The load on the north beams.
pub open spec fn load(grid: Seq<Seq<char>>, size: int) -> int {
    load_in_rows(grid, size, size)
}

/// The load can be computed in the size type, place by place.
pub open spec fn load_fits(grid: Seq<Seq<char>>, size: int) -> bool {
    forall|i: int, j: int|
        0 <= i < size && 0 <= j <= size ==> load_in_rows(grid, size, i) + #[trigger] load_in_row(
            grid,
            size,
            i,
            j,
        ) <= usize::MAX
}

/// The state after `j` spins has occurred after fewer spins, but not
/// before the first.
pub open spec fn repeats_at(grid: Seq<Seq<char>>, size: int, j: nat) -> bool {
    exists|i: nat| 1 <= i < j && after_spins(grid, size, i) == after_spins(grid, size, j)
}

/// The state after `j` spins is the first that has occurred before, and
/// it occurred after `i` spins.
pub open spec fn first_repeat(grid: Seq<Seq<char>>, size: int, i: nat, j: nat) -> bool {
    &&& 1 <= i < j
    &&& after_spins(grid, size, i) == after_spins(grid, size, j)
    &&& forall|k: nat| 1 <= k < j ==> !#[trigger] repeats_at(grid, size, k)
}

/// The number of spins, among those before the first repeat, that leaves
/// the platform as the thousand million spins do.
pub open spec fn same_as_last(i: nat, j: nat) -> nat {
    (i + (SPINS - i) % (j - i)) as nat
}

impl Input {
    /// The platform as a grid.
    pub open spec fn grid(&self) -> Seq<Seq<char>> {
        grid_of(self.map@)
    }

    /// The rows hold a square of the side of the platform.
    pub open spec fn is_valid(&self) -> bool {
        is_square(self.grid(), self.size as int)
    }

    /// This value is what the text says: one row for each line, and as
    /// many lines as the side is long.
    pub open spec fn is_parse_of(&self, text: Seq<u8>) -> bool {
        &&& self.size == lines(text).len()
        &&& self.map@.len() == lines(text).len()
        &&& forall|i: int, j: int|
            0 <= i < lines(text).len() && 0 <= j < lines(text)[i].len() ==> (
            #[trigger] self.map@[i]@[j]) == lines(text)[i][j] as char
        &&& forall|i: int|
            0 <= i < lines(text).len() ==> (#[trigger] self.map@[i])@.len() == lines(text)[i].len()
    }

    /// Reads a platform. Every text of ASCII characters is one.
    pub fn from_str(s: &str) -> (r: Result<Input, ParseError>)
        ensures
            match r {
                Ok(v) => ascii_bytes(s@) is Some && v.is_parse_of(ascii_bytes(s@)->0),
                Err(_) => ascii_bytes(s@) is None,
            },
    {
        let bytes = match to_ascii(s) {
            Some(b) => b,
            None => { return Err(ParseError {  }); },
        };
        let ghost text = bytes@;
        let ls = split_lines(bytes.as_slice());
        let ghost rows = lines(text);
        let mut map: Vec<Vec<char>> = Vec::new();
        let mut i: usize = 0;
        while i < ls.len()
            invariant
                i <= ls@.len(),
                rows_of(ls@) == rows,
                map@.len() == i,
                forall|a: int, b: int|
                    0 <= a < i && 0 <= b < rows[a].len() ==> (#[trigger] map@[a]@[b]) == rows[a][b]
                        as char,
                forall|a: int| 0 <= a < i ==> (#[trigger] map@[a])@.len() == rows[a].len(),
            decreases ls@.len() - i,
        {
            let line = &ls[i];
            assert(line@ == rows[i as int]);
            let mut row: Vec<char> = Vec::new();
            let mut j: usize = 0;
            while j < line.len()
                invariant
                    j <= line@.len(),
                    row@.len() == j,
                    forall|b: int| 0 <= b < j ==> row@[b] == line@[b] as char,
                decreases line@.len() - j,
            {
                row.push(line[j] as char);
                j += 1;
            }
            map.push(row);
            i += 1;
        }
        let size = map.len();
        assert(rows.len() == ls@.len());
        Ok(Input { map, size })
    }

    /// The load on the north beams.
    pub fn calculate_load(&self) -> (r: usize)
        requires
            self.is_valid(),
            load_fits(self.grid(), self.size as int),
        ensures
            r == load(self.grid(), self.size as int),
    {
        let ghost grid = self.grid();
        let ghost size = self.size as int;
        let mut total: usize = 0;
        let mut i: usize = 0;
        while i < self.size
            invariant
                i <= self.size,
                grid == self.grid(),
                size == self.size,
                is_square(grid, size),
                load_fits(grid, size),
                total == load_in_rows(grid, size, i as int),
            decreases self.size - i,
        {
            let ghost base = total as int;
            let mut j: usize = 0;
            while j < self.size
                invariant
                    i < self.size,
                    j <= self.size,
                    grid == self.grid(),
                    size == self.size,
                    is_square(grid, size),
                    load_fits(grid, size),
                    base == load_in_rows(grid, size, i as int),
                    total == base + load_in_row(grid, size, i as int, j as int),
                decreases self.size - j,
            {
                proof {
                    assert(grid[i as int].len() >= size);
                    assert(grid[i as int] == self.map@[i as int]@);
                    assert(base + load_in_row(grid, size, i as int, j + 1) <= usize::MAX);
                }
                if self.map[i][j] == ROUND {
                    total = total + (self.size - i);
                }
                j += 1;
            }
            i += 1;
        }
        total
    }

    /// Lets the rock at `(row, col)`, if there is a round one, roll in the
    /// direction `dir`.
    pub fn roll_one(&mut self, row: usize, col: usize, dir: Direction)
        requires
            old(self).is_valid(),
            dir.is_compass(),
            row < old(self).size,
            col < old(self).size,
            old(self).size <= i32::MAX,
        ensures
            final(self).size == old(self).size,
            final(self).is_valid(),
            final(self).grid() == roll(
                old(self).grid(),
                old(self).size as int,
                (row as int, col as int),
                dir,
            ),
    {
        let ghost grid = self.grid();
        let ghost size = self.size as int;
        assert(grid[row as int] == self.map@[row as int]@);
        assert(grid[row as int].len() >= size);
        if self.map[row][col] != ROUND {
            return ;
        }
        let n: i64 = self.size as i64;
        let mut r: i64 = row as i64;
        let mut c: i64 = col as i64;
        let ghost mut fuel: nat = size as nat;
        loop
            invariant
                grid == self.grid(),
                size == self.size,
                n == size,
                is_square(grid, size),
                dir.is_compass(),
                0 <= r < n,
                0 <= c < n,
                fuel > if dir.0 == -1 {
                    r as int
                } else if dir.0 == 1 {
                    size - 1 - r
                } else if dir.1 == -1 {
                    c as int
                } else {
                    size - 1 - c
                },
                landing(grid, size, (row as int, col as int), dir, size as nat) == landing(
                    grid,
                    size,
                    (r as int, c as int),
                    dir,
                    fuel,
                ),
            ensures
                0 <= r < n,
                0 <= c < n,
                (r as int, c as int) == landing(
                    grid,
                    size,
                    (row as int, col as int),
                    dir,
                    size as nat,
                ),
            decreases fuel,
        {
            let nr: i64 = r + dir.0 as i64;
            let nc: i64 = c + dir.1 as i64;
            if !(nr >= 0 && nr < n && nc >= 0 && nc < n) {
                break ;
            }
            proof {
                assert(grid[nr as int] == self.map@[nr as int]@);
                assert(grid[nr as int].len() >= size);
            }
            if self.map[nr as usize][nc as usize] != FREE {
                break ;
            }
            r = nr;
            c = nc;
            proof {
                fuel = (fuel - 1) as nat;
            }
        }
        let ghost before = self.map@;
        self.map[row][col] = FREE;
        let ghost middle = self.map@;
        proof {
            assert(grid_of(middle) =~= put(grid, (row as int, col as int), FREE)) by {
                assert forall|i: int| 0 <= i < middle.len() implies grid_of(middle)[i] == put(
                    grid,
                    (row as int, col as int),
                    FREE,
                )[i] by {
                    if i != row {
                        assert(middle[i] == before[i]);
                    }
                }
            }
            assert(middle[r as int]@.len() >= size) by {
                if r != row {
                    assert(middle[r as int] == before[r as int]);
                }
                assert(grid[r as int] == before[r as int]@);
            }
        }
        self.map[r as usize][c as usize] = ROUND;
        proof {
            let after = self.map@;
            let mid = grid_of(middle);
            assert(grid_of(after) =~= put(mid, (r as int, c as int), ROUND)) by {
                assert forall|i: int| 0 <= i < after.len() implies grid_of(after)[i] == put(
                    mid,
                    (r as int, c as int),
                    ROUND,
                )[i] by {
                    if i != r {
                        assert(after[i] == middle[i]);
                    }
                }
            }
            assert forall|i: int| 0 <= i < size implies (#[trigger] grid_of(after)[i]).len()
                >= size by {
                assert(grid[i].len() >= size);
            }
        }
    }

    /// Tilts the platform in the direction `dir`: every round rock rolls
    /// that way until a rock or the edge stops it.
    pub fn tilt(&mut self, dir: Direction)
        requires
            old(self).is_valid(),
            dir.is_compass(),
            old(self).size <= i32::MAX,
        ensures
            final(self).size == old(self).size,
            final(self).is_valid(),
            final(self).grid() == tilted(old(self).grid(), old(self).size as int, dir),
    {
        let ghost start = self.grid();
        let ghost size = self.size as int;
        let n = self.size;
        let ascending = dir.0 + dir.1 == -1;
        let mut i: usize = 0;
        while i < n
            invariant
                i <= n,
                n == self.size,
                size == n,
                n <= i32::MAX,
                dir.is_compass(),
                ascending == (dir.0 + dir.1 == -1),
                self.is_valid(),
                self.grid() == tilt_lines(start, size, dir, i as int),
            decreases n - i,
        {
            let ghost line_start = self.grid();
            let mut t: usize = 0;
            while t < n
                invariant
                    i < n,
                    t <= n,
                    n == self.size,
                    size == n,
                    n <= i32::MAX,
                    dir.is_compass(),
                    ascending == (dir.0 + dir.1 == -1),
                    self.is_valid(),
                    self.grid() == tilt_line(line_start, size, dir, i as int, t as int),
                decreases n - t,
            {
                let j: usize = if ascending { t } else { n - 1 - t };
                let (row, col) = if dir.0 != 0 { (j, i) } else { (i, j) };
                assert((row as int, col as int) == place(size, dir, i as int, t as int));
                self.roll_one(row, col, dir);
                t += 1;
            }
            i += 1;
        }
    }

    /// Spins the platform once: tilts it north, west, south and east.
    pub fn tilt_cycle(&mut self)
        requires
            old(self).is_valid(),
            old(self).size <= i32::MAX,
        ensures
            final(self).size == old(self).size,
            final(self).is_valid(),
            final(self).grid() == spun(old(self).grid(), old(self).size as int),
    {
        self.tilt(Direction::up());
        self.tilt(Direction::left());
        self.tilt(Direction::down());
        self.tilt(Direction::right());
    }

    /// A copy of the rows of the platform.
    pub fn copy_map(&self) -> (r: Vec<Vec<char>>)
        ensures
            grid_of(r@) == self.grid(),
    {
        copy_of(&self.map)
    }
}

/// Whether two platforms hold the same.
pub fn same_grid(a: &Vec<Vec<char>>, b: &Vec<Vec<char>>) -> (r: bool)
    ensures
        r == (grid_of(a@) == grid_of(b@)),
{
    if a.len() != b.len() {
        assert(grid_of(a@).len() != grid_of(b@).len());
        return false;
    }
    let mut i: usize = 0;
    while i < a.len()
        invariant
            i <= a@.len(),
            a@.len() == b@.len(),
            forall|k: int| 0 <= k < i ==> (#[trigger] a@[k])@ == b@[k]@,
        decreases a@.len() - i,
    {
        if a[i].len() != b[i].len() {
            assert(grid_of(a@)[i as int] == a@[i as int]@);
            assert(grid_of(b@)[i as int] == b@[i as int]@);
            return false;
        }
        let mut j: usize = 0;
        while j < a[i].len()
            invariant
                i < a@.len(),
                a@.len() == b@.len(),
                a@[i as int]@.len() == b@[i as int]@.len(),
                j <= a@[i as int]@.len(),
                forall|k: int| 0 <= k < j ==> a@[i as int]@[k] == b@[i as int]@[k],
            decreases a@[i as int]@.len() - j,
        {
            if a[i][j] != b[i][j] {
                assert(grid_of(a@)[i as int] == a@[i as int]@);
                assert(grid_of(b@)[i as int] == b@[i as int]@);
                return false;
            }
            j += 1;
        }
        assert(a@[i as int]@ =~= b@[i as int]@);
        i += 1;
    }
    assert(grid_of(a@) =~= grid_of(b@));
    true
}

/// The load on the north beams after a tilt to the north.
pub fn part1(input: Input) -> (r: usize)
    requires
        input.is_valid(),
        input.size <= i32::MAX,
        load_fits(tilted(input.grid(), input.size as int, Direction(-1i32, 0)), input.size as int),
    ensures
        r == load(tilted(input.grid(), input.size as int, Direction(-1i32, 0)), input.size as int),
{
    let mut input = input;
    input.tilt(Direction::up());
    input.calculate_load()
}

/// The load on the north beams after a thousand million spins. The states
/// after the spins repeat in a circle, so the state after the last spin is
/// found among the states before the first repeat.
pub fn part2(input: Input) -> (r: usize)
    requires
        input.is_valid(),
        input.size <= i32::MAX,
        exists|i: nat, j: nat| first_repeat(input.grid(), input.size as int, i, j) && j <= SPINS,
        forall|i: nat, j: nat|
            first_repeat(input.grid(), input.size as int, i, j) ==> load_fits(
                after_spins(input.grid(), input.size as int, same_as_last(i, j)),
                input.size as int,
            ),
    ensures
        forall|i: nat, j: nat|
            first_repeat(input.grid(), input.size as int, i, j) ==> r == load(
                after_spins(input.grid(), input.size as int, same_as_last(i, j)),
                input.size as int,
            ),
{
    let ghost start = input.grid();
    let ghost size = input.size as int;
    let ghost pair = choose|i: nat, j: nat| first_repeat(start, size, i, j) && j <= SPINS;
    let ghost gi = pair.0;
    let ghost gj = pair.1;
    let mut platform = input;
    let side = platform.size;
    let mut seen: Vec<Vec<Vec<char>>> = Vec::new();
    let mut iteration: i32 = 0;
    loop
        invariant
            platform.size == side,
            size == side,
            start == input.grid(),
            size == input.size,
            side <= i32::MAX,
            platform.is_valid(),
            is_square(start, size),
            first_repeat(start, size, gi, gj),
            gj <= SPINS,
            0 <= iteration < gj,
            seen@.len() == iteration,
            platform.grid() == after_spins(start, size, iteration as nat),
            forall|k: int|
                0 <= k < iteration ==> grid_of((#[trigger] seen@[k])@) == after_spins(
                    start,
                    size,
                    (k + 1) as nat,
                ),
            forall|i: nat, j: nat|
                first_repeat(start, size, i, j) ==> load_fits(
                    after_spins(start, size, same_as_last(i, j)),
                    size,
                ),
        decreases gj - iteration,
    {
        iteration += 1;
        platform.tilt_cycle();
        let ghost now = platform.grid();
        assert(now == after_spins(start, size, iteration as nat));
        let mut found: Option<usize> = None;
        let mut k: usize = 0;
        while k < seen.len() && found.is_none()
            invariant
                k <= seen@.len(),
                seen@.len() == iteration - 1,
                now == platform.grid(),
                forall|m: int|
                    0 <= m < seen@.len() ==> grid_of((#[trigger] seen@[m])@) == after_spins(
                        start,
                        size,
                        (m + 1) as nat,
                    ),
                match found {
                    Some(f) => f < seen@.len() && grid_of(seen@[f as int]@) == now,
                    None => forall|m: int| 0 <= m < k ==> grid_of((#[trigger] seen@[m])@) != now,
                },
            decreases seen@.len() - k, if found is None { 1int } else { 0int },
        {
            if same_grid(&seen[k], &platform.map) {
                found = Some(k);
            } else {
                k += 1;
            }
        }
        match found {
            Some(f) => {
                let first_seen: i32 = f as i32 + 1;
                proof {
                    let i = first_seen as nat;
                    let j = iteration as nat;
                    assert(after_spins(start, size, i) == after_spins(start, size, j));
                    assert(repeats_at(start, size, j));
                    assert(j == gj);
                    assert(i == gi) by {
                        if i < gi {
                            assert(repeats_at(start, size, gi));
                        } else if gi < i {
                            assert(repeats_at(start, size, i));
                        }
                    }
                }
                let period: i32 = iteration - first_seen;
                let offset: i32 = (SPINS - first_seen) % period;
                let index: usize = (first_seen + offset - 1) as usize;
                let state = Input { map: copy_of(&seen[index]), size: side };
                proof {
                    assert(grid_of(seen@[index as int]@) == after_spins(
                        start,
                        size,
                        same_as_last(gi, gj),
                    ));
                    assert(load_fits(after_spins(start, size, same_as_last(gi, gj)), size));
                    lemma_square_after_spins(start, size, same_as_last(gi, gj));
                    assert forall|i: nat, j: nat| first_repeat(start, size, i, j) implies i == gi
                        && j == gj by {
                        if j < gj {
                            assert(repeats_at(start, size, j));
                        } else if gj < j {
                            assert(repeats_at(start, size, gj));
                        }
                        if i < gi {
                            assert(repeats_at(start, size, gi));
                        } else if gi < i {
                            assert(repeats_at(start, size, i));
                        }
                    }
                }
                return state.calculate_load();
            },
            None => {
                proof {
                    if iteration == gj {
                        assert(grid_of(seen@[gi - 1]@) == now);
                        assert(false);
                    }
                }
                seen.push(platform.copy_map());
            },
        }
    }
}

/// A copy of the rows of a platform.
pub fn copy_of(map: &Vec<Vec<char>>) -> (r: Vec<Vec<char>>)
    ensures
        grid_of(r@) == grid_of(map@),
{
    let mut r: Vec<Vec<char>> = Vec::new();
    let mut i: usize = 0;
    while i < map.len()
        invariant
            i <= map@.len(),
            r@.len() == i,
            forall|k: int| 0 <= k < i ==> (#[trigger] r@[k])@ == map@[k]@,
        decreases map@.len() - i,
    {
        let mut row: Vec<char> = Vec::new();
        let mut j: usize = 0;
        while j < map[i].len()
            invariant
                i < map@.len(),
                j <= map@[i as int]@.len(),
                row@ == map@[i as int]@.subrange(0, j as int),
            decreases map@[i as int]@.len() - j,
        {
            row.push(map[i][j]);
            assert(row@ =~= map@[i as int]@.subrange(0, j + 1));
            j += 1;
        }
        assert(row@ =~= map@[i as int]@);
        r.push(row);
        i += 1;
    }
    assert(grid_of(r@) =~= grid_of(map@));
    r
}

/// A rolling rock leaves the platform a square.
pub proof fn lemma_square_roll(grid: Seq<Seq<char>>, size: int, p: (int, int), dir: Direction)
    requires
        is_square(grid, size),
        0 <= p.0 < size,
        0 <= p.1 < size,
    ensures
        is_square(roll(grid, size, p, dir), size),
{
    if grid[p.0][p.1] == ROUND {
        lemma_landing_inside(grid, size, p, dir, size as nat);
        let l = landing(grid, size, p, dir, size as nat);
        let mid = put(grid, p, FREE);
        let end = put(mid, l, ROUND);
        assert forall|i: int| 0 <= i < size implies (#[trigger] end[i]).len() >= size by {
            assert(grid[i].len() >= size);
        }
    }
}

/// A rock comes to rest inside the square.
pub proof fn lemma_landing_inside(
    grid: Seq<Seq<char>>,
    size: int,
    p: (int, int),
    dir: Direction,
    n: nat,
)
    requires
        0 <= p.0 < size,
        0 <= p.1 < size,
    ensures
        0 <= landing(grid, size, p, dir, n).0 < size,
        0 <= landing(grid, size, p, dir, n).1 < size,
    decreases n,
{
    let next = (p.0 + dir.0, p.1 + dir.1);
    if n > 0 && is_free(grid, size, next) {
        lemma_landing_inside(grid, size, next, dir, (n - 1) as nat);
    }
}

/// A tilt leaves the platform a square.
pub proof fn lemma_square_tilt(grid: Seq<Seq<char>>, size: int, dir: Direction, i: int, t: int)
    requires
        is_square(grid, size),
        dir.is_compass(),
        0 <= i <= size,
        0 <= t <= size,
    ensures
        is_square(tilt_lines(grid, size, dir, i), size),
        i < size ==> is_square(tilt_line(tilt_lines(grid, size, dir, i), size, dir, i, t), size),
    decreases i, t,
{
    if i > 0 {
        lemma_square_tilt(grid, size, dir, i - 1, size);
    }
    if i < size && t > 0 {
        lemma_square_tilt(grid, size, dir, i, t - 1);
        let before = tilt_line(tilt_lines(grid, size, dir, i), size, dir, i, t - 1);
        lemma_square_roll(before, size, place(size, dir, i, t - 1), dir);
    }
}

/// Spins leave the platform a square.
pub proof fn lemma_square_after_spins(grid: Seq<Seq<char>>, size: int, k: nat)
    requires
        is_square(grid, size),
        size >= 0,
    ensures
        is_square(after_spins(grid, size, k), size),
    decreases k,
{
    if k > 0 {
        lemma_square_after_spins(grid, size, (k - 1) as nat);
        let a = after_spins(grid, size, (k - 1) as nat);
        lemma_square_tilt(a, size, Direction(-1i32, 0), size, 0);
        let b = tilted(a, size, Direction(-1i32, 0));
        lemma_square_tilt(b, size, Direction(0, -1i32), size, 0);
        let c = tilted(b, size, Direction(0, -1i32));
        lemma_square_tilt(c, size, Direction(1, 0), size, 0);
        let d = tilted(c, size, Direction(1, 0));
        lemma_square_tilt(d, size, Direction(0, 1), size, 0);
    }
}

// ----------------------------------------------------------------------
// Reading twice
// ----------------------------------------------------------------------


/// Reading a text twice gives the same value: two platforms that one text
/// says have the same side and the same rows.
pub proof fn lemma_parse_is_unique(a: Input, b: Input, text: Seq<u8>)
    requires
        a.is_parse_of(text),
        b.is_parse_of(text),
    ensures
        a.size == b.size,
        a.grid() == b.grid(),
{
    assert(a.grid() =~~= b.grid());
}

/// The spins repeat once: the numbers of spins of the first repeat are
/// the same for all who find it.
pub proof fn lemma_first_repeat_once(grid: Seq<Seq<char>>, size: int, i: nat, j: nat, k: nat, l: nat)
    requires
        first_repeat(grid, size, i, j),
        first_repeat(grid, size, k, l),
    ensures
        i == k,
        j == l,
{
    lemma_repeat_found(grid, size, i, j);
    lemma_repeat_found(grid, size, k, l);
    if i < k {
        lemma_repeat_found(grid, size, i, k);
    } else if k < i {
        lemma_repeat_found(grid, size, k, i);
    }
}

/// Two numbers of spins that leave the platform the same make a repeat.
proof fn lemma_repeat_found(grid: Seq<Seq<char>>, size: int, i: nat, j: nat)
    requires
        1 <= i < j,
        after_spins(grid, size, i) == after_spins(grid, size, j),
    ensures
        repeats_at(grid, size, j),
{
}

} // verus!
