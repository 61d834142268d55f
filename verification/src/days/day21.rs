//! A garden of plots and rocks that repeats without end in every
//! direction. The puzzle asks how many plots can be reached from the start
//! in a given number of steps, each step leading to a plot next to the
//! last.

use crate::grid::{blank, has_shape, is_marked, mark};
use crate::text::{ascii_bytes, lines, rows_of, split_lines, to_ascii, ParseError};
use vstd::prelude::*;

verus! {

/// The garden, row by row, its height and width, and the start.
#[derive(Debug, PartialEq, Eq)]
pub struct Input {
    pub map: Vec<Vec<char>>,
    pub size: (i32, i32),
    pub start: (i32, i32),
}

/// A rock.
pub const ROCK: char = '#';

/// What the rows of a garden hold.
pub open spec fn grid_of(v: Seq<Vec<char>>) -> Seq<Seq<char>> {
    Seq::new(v.len(), |i: int| v[i]@)
}

/// The start of the first `k` lines: the last start mark in them, or the
/// top left corner.
pub open spec fn start_upto(ls: Seq<Seq<u8>>, k: int) -> (int, int)
    decreases k,
{
    if k <= 0 {
        (0, 0)
    } else {
        start_in_line(ls[k - 1], k - 1, ls[k - 1].len() as int, start_upto(ls, k - 1))
    }
}

/// The start after the first `j` bytes of the line in row `i`.
pub open spec fn start_in_line(line: Seq<u8>, i: int, j: int, before: (int, int)) -> (int, int)
    decreases j,
{
    if j <= 0 {
        before
    } else if line[j - 1] == 83 {
        (i, j - 1)
    } else {
        start_in_line(line, i, j - 1, before)
    }
}

/// The four steps in the order in which neighbours are visited: right,
/// left, down, up.
pub open spec fn step(d: int) -> (int, int) {
    if d == 0 {
        (0, 1)
    } else if d == 1 {
        (0, -1)
    } else if d == 2 {
        (1, 0)
    } else {
        (-1, 0)
    }
}

impl Input {
    /// The garden as a grid.
    pub open spec fn grid(&self) -> Seq<Seq<char>> {
        grid_of(self.map@)
    }

    /// The garden has its height in rows of its width, and neither is
    /// zero.
    pub open spec fn is_valid(&self) -> bool {
        &&& self.size.0 > 0
        &&& self.size.1 > 0
        &&& self.map@.len() >= self.size.0
        &&& forall|i: int| 0 <= i < self.size.0 ==> (#[trigger] self.map@[i])@.len() >= self.size.1
    }

    /// What grows at a position of the endless garden: the garden repeats
    /// with its height and its width.
    pub open spec fn plot(&self, pos: (int, int)) -> char {
        self.map@[pos.0 % self.size.0 as int]@[pos.1 % self.size.1 as int]
    }

    /// The position can be stepped on.
    pub open spec fn is_open(&self, pos: (int, int)) -> bool {
        self.plot(pos) != ROCK
    }

    /// The position is in the set of step `k`. The set of step 0 holds the
    /// start alone. The set of a later step holds the set of two steps
    /// before, and every open position next to a position that came new
    /// into the set of the step before.
    pub open spec fn reached(&self, k: int, pos: (int, int)) -> bool
        decreases k + 3,
    {
        let a = (pos.0, pos.1 - 1);
        let b = (pos.0, pos.1 + 1);
        let c = (pos.0 - 1, pos.1);
        let d = (pos.0 + 1, pos.1);
        if k < 0 {
            false
        } else if k == 0 {
            pos == (self.start.0 as int, self.start.1 as int)
        } else {
            self.reached(k - 2, pos) || (self.is_open(pos) && ((self.reached(k - 1, a)
                && !self.reached(k - 3, a)) || (self.reached(k - 1, b) && !self.reached(k - 3, b))
                || (self.reached(k - 1, c) && !self.reached(k - 3, c)) || (self.reached(k - 1, d)
                && !self.reached(k - 3, d))))
        }
    }

    /// The position came new into the set of step `k`: it is in that set and
    /// not in the set of two steps before.
    pub open spec fn fresh(&self, k: int, pos: (int, int)) -> bool {
        self.reached(k, pos) && !self.reached(k - 2, pos)
    }

    /// Whether the position lies in the one garden that the text shows.
    pub fn is_in(&self, pos: (i32, i32)) -> (r: bool)
        ensures
            r == (0 <= pos.0 < self.size.0 && 0 <= pos.1 < self.size.1),
    {
        pos.0 >= 0 && pos.0 < self.size.0 && pos.1 >= 0 && pos.1 < self.size.1
    }

    /// What grows at a position of the endless garden.
    pub fn get(&self, pos: (i32, i32)) -> (c: char)
        requires
            self.is_valid(),
        ensures
            c == self.plot((pos.0 as int, pos.1 as int)),
    {
        let h = self.size.0 as i64;
        let w = self.size.1 as i64;
        let a = pos.0 as i64;
        let b = pos.1 as i64;
        let x: i64 = if a >= 0 {
            a % h
        } else if (-a) % h == 0 {
            0
        } else {
            h - ((-a) % h)
        };
        let y: i64 = if b >= 0 {
            b % w
        } else if (-b) % w == 0 {
            0
        } else {
            w - ((-b) % w)
        };
        proof {
            lemma_wrap(a as int, h as int);
            lemma_wrap(b as int, w as int);
        }
        self.map[x as usize][y as usize]
    }

    /// This value is what the text says.
    pub open spec fn is_parse_of(&self, text: Seq<u8>) -> bool {
        let ls = lines(text);
        &&& self.size == (ls.len() as i32, ls[0].len() as i32)
        &&& (self.start.0 as int, self.start.1 as int) == start_upto(ls, ls.len() as int)
        &&& self.map@.len() == ls.len()
        &&& forall|i: int| 0 <= i < ls.len() ==> (#[trigger] self.map@[i])@.len() == ls[i].len()
        &&& forall|i: int, j: int|
            0 <= i < ls.len() && 0 <= j < ls[i].len() ==> (#[trigger] self.map@[i]@[j])
                == ls[i][j] as char
    }

    /// The text has a line, and no line nor the number of lines is beyond
    /// 32 bits with a sign.
    pub open spec fn accepts(text: Seq<u8>) -> bool {
        let ls = lines(text);
        &&& 0 < ls.len() <= i32::MAX
        &&& forall|i: int| 0 <= i < ls.len() ==> (#[trigger] ls[i]).len() <= i32::MAX
    }

    /// Reads a garden. A text is accepted if it is ASCII and has a line,
    /// within the limits of a position.
    pub fn from_str(s: &str) -> (r: Result<Input, ParseError>)
        ensures
            match r {
                Ok(v) => ascii_bytes(s@) is Some && Input::accepts(ascii_bytes(s@)->0)
                    && v.is_parse_of(ascii_bytes(s@)->0),
                Err(_) => ascii_bytes(s@) is None || !Input::accepts(ascii_bytes(s@)->0),
            },
    {
        let bytes = match to_ascii(s) {
            Some(b) => b,
            None => { return Err(ParseError {  }); },
        };
        let ghost text = bytes@;
        let ls = split_lines(bytes.as_slice());
        let ghost rows = lines(text);
        assert(rows.len() == ls@.len());
        if ls.len() == 0 || ls.len() > 0x7fff_ffff {
            return Err(ParseError {  });
        }
        let mut map: Vec<Vec<char>> = Vec::new();
        let mut start: (i32, i32) = (0, 0);
        let mut i: usize = 0;
        while i < ls.len()
            invariant
                i <= ls@.len(),
                ls@.len() <= i32::MAX,
                rows_of(ls@) == rows,
                rows == lines(text),
                ascii_bytes(s@) == Some(text),
                map@.len() == i,
                (start.0 as int, start.1 as int) == start_upto(rows, i as int),
                forall|a: int| 0 <= a < i ==> (#[trigger] rows[a]).len() <= i32::MAX,
                forall|a: int| 0 <= a < i ==> (#[trigger] map@[a])@.len() == rows[a].len(),
                forall|a: int, b: int|
                    0 <= a < i && 0 <= b < rows[a].len() ==> (#[trigger] map@[a]@[b]) == rows[a][b]
                        as char,
            decreases ls@.len() - i,
        {
            let line = &ls[i];
            assert(line@ == rows[i as int]);
            if line.len() > 0x7fff_ffff {
                return Err(ParseError {  });
            }
            let ghost before = (start.0 as int, start.1 as int);
            let mut row: Vec<char> = Vec::new();
            let mut j: usize = 0;
            while j < line.len()
                invariant
                    j <= line@.len() <= i32::MAX,
                    i <= i32::MAX,
                    row@.len() == j,
                    forall|b: int| 0 <= b < j ==> row@[b] == line@[b] as char,
                    (start.0 as int, start.1 as int) == start_in_line(
                        line@,
                        i as int,
                        j as int,
                        before,
                    ),
                decreases line@.len() - j,
            {
                row.push(line[j] as char);
                if line[j] == 83 {
                    start = (i as i32, j as i32);
                }
                j += 1;
            }
            map.push(row);
            i += 1;
        }
        assert(ls@[0]@ == rows[0]);
        let size = (map.len() as i32, map[0].len() as i32);
        Ok(Input { map, size, start })
    }
}

/// The remainder of a division that is never negative, computed from the
/// remainder of the absolute value.
pub proof fn lemma_wrap(a: int, n: int)
    requires
        n > 0,
    ensures
        0 <= a % n < n,
        a < 0 && (-a) % n == 0 ==> a % n == 0,
        a < 0 && (-a) % n != 0 ==> a % n == n - ((-a) % n),
{
    vstd::arithmetic::div_mod::lemma_mod_bound(a, n);
    if a < 0 {
        let q = (-a) / n;
        let r = (-a) % n;
        vstd::arithmetic::div_mod::lemma_fundamental_div_mod(-a, n);
        vstd::arithmetic::div_mod::lemma_mod_bound(-a, n);
        if r == 0 {
            assert(a == n * (-q)) by (nonlinear_arith)
                requires
                    -a == n * q + r,
                    r == 0,
            ;
            vstd::arithmetic::div_mod::lemma_fundamental_div_mod_converse(a, n, -q, 0);
        } else {
            assert(a == n * (-q - 1) + (n - r)) by (nonlinear_arith)
                requires
                    -a == n * q + r,
            ;
            vstd::arithmetic::div_mod::lemma_fundamental_div_mod_converse(a, n, -q - 1, n - r);
        }
    }
}

/// The open positions next to `pos`, in the order right, left, down, up.
pub fn get_neighbors(pos: (i32, i32), input: &Input) -> (v: Vec<(i32, i32)>)
    requires
        input.is_valid(),
        i32::MIN < pos.0 < i32::MAX,
        i32::MIN < pos.1 < i32::MAX,
    ensures
        v@ == open_neighbors(*input, (pos.0 as int, pos.1 as int), 4),
{
    let mut v: Vec<(i32, i32)> = Vec::new();
    let ghost q = (pos.0 as int, pos.1 as int);
    assert(v@ =~= open_neighbors(*input, q, 0));
    let p = (pos.0, pos.1 + 1);
    if input.get(p) != ROCK {
        v.push(p);
    }
    assert(v@ =~= open_neighbors(*input, q, 1));
    let p = (pos.0, pos.1 - 1);
    if input.get(p) != ROCK {
        v.push(p);
    }
    assert(v@ =~= open_neighbors(*input, q, 2));
    let p = (pos.0 + 1, pos.1);
    if input.get(p) != ROCK {
        v.push(p);
    }
    assert(v@ =~= open_neighbors(*input, q, 3));
    let p = (pos.0 - 1, pos.1);
    if input.get(p) != ROCK {
        v.push(p);
    }
    assert(v@ =~= open_neighbors(*input, q, 4));
    v
}

/// The open positions among the first `d` neighbours of `pos`.
pub open spec fn open_neighbors(input: Input, pos: (int, int), d: int) -> Seq<(i32, i32)>
    decreases d,
{
    if d <= 0 {
        Seq::empty()
    } else {
        let q = (pos.0 + step(d - 1).0, pos.1 + step(d - 1).1);
        if input.is_open(q) {
            open_neighbors(input, pos, d - 1).push((q.0 as i32, q.1 as i32))
        } else {
            open_neighbors(input, pos, d - 1)
        }
    }
}

/// The position that the cell in row `r` and column `c` of the window
/// stands for. The window reaches `steps` positions from the start in every
/// direction.
pub open spec fn cell_pos(input: Input, steps: int, r: int, c: int) -> (int, int) {
    (input.start.0 - steps + r, input.start.1 - steps + c)
}

/// How many of the first `c` cells of row `r` of the window are in the set
/// of step `steps`.
pub open spec fn count_in_row(input: Input, steps: int, r: int, c: int) -> int
    decreases c,
{
    if c <= 0 {
        0
    } else {
        count_in_row(input, steps, r, c - 1) + if input.reached(
            steps,
            cell_pos(input, steps, r, c - 1),
        ) {
            1int
        } else {
            0int
        }
    }
}

/// How many cells of the first `r` rows of the window are in the set of
/// step `steps`.
pub open spec fn count_in_rows(input: Input, steps: int, r: int) -> int
    decreases r,
{
    if r <= 0 {
        0
    } else {
        count_in_rows(input, steps, r - 1) + count_in_row(input, steps, r - 1, 2 * steps + 1)
    }
}

/// The number of positions in the set of step `steps`. No position of the
/// set lies outside the window.
pub open spec fn plots(input: Input, steps: int) -> int {
    count_in_rows(input, steps, 2 * steps + 1)
}

/// A position in the set of step `k` lies at most `k` rows and `k` columns
/// from the start.
pub proof fn lemma_radius(input: Input, k: int, pos: (int, int))
    requires
        input.reached(k, pos),
    ensures
        k >= 0,
        input.start.0 - k <= pos.0 <= input.start.0 + k,
        input.start.1 - k <= pos.1 <= input.start.1 + k,
    decreases k + 3,
{
    let a = (pos.0, pos.1 - 1);
    let b = (pos.0, pos.1 + 1);
    let c = (pos.0 - 1, pos.1);
    let d = (pos.0 + 1, pos.1);
    if k > 0 {
        if input.reached(k - 2, pos) {
            lemma_radius(input, k - 2, pos);
        } else if input.reached(k - 1, a) {
            lemma_radius(input, k - 1, a);
        } else if input.reached(k - 1, b) {
            lemma_radius(input, k - 1, b);
        } else if input.reached(k - 1, c) {
            lemma_radius(input, k - 1, c);
        } else {
            lemma_radius(input, k - 1, d);
        }
    }
}

/// The marks of the window are the set of step `k`.
pub open spec fn agrees(g: Seq<Vec<bool>>, input: Input, steps: int, k: int) -> bool {
    &&& has_shape(g, 2 * steps + 1, 2 * steps + 1)
    &&& forall|r: int, c: int|
        0 <= r <= 2 * steps && 0 <= c <= 2 * steps ==> (#[trigger] g[r]@[c]) == input.reached(
            k,
            cell_pos(input, steps, r, c),
        )
}

/// Whether the cell lies in the window and came new into the set of the
/// last step.
fn is_fresh(cur: &Vec<Vec<bool>>, older: &Vec<Vec<bool>>, side: usize, r: i64, c: i64) -> (b: bool)
    requires
        has_shape(cur@, side as int, side as int),
        has_shape(older@, side as int, side as int),
    ensures
        b == (0 <= r < side && 0 <= c < side && cur@[r as int]@[c as int] && !older@[r as int]@[c as int]),
{
    if r < 0 || c < 0 || r as u64 >= side as u64 || c as u64 >= side as u64 {
        return false;
    }
    assert(cur@[r as int]@.len() == side);
    assert(older@[r as int]@.len() == side);
    is_marked(cur, r as usize, c as usize) && !is_marked(older, r as usize, c as usize)
}

/// The number of positions in the set of step `steps`: the positions that
/// can be reached in that many steps, each step leading to an open
/// position next to the last.
pub fn part1(input: Input, steps: usize) -> (r: usize)
    requires
        input.is_valid(),
        steps <= 0x3fff_ffff,
        2 * steps + 1 <= usize::MAX,
        -0x3fff_ffff <= input.start.0 <= 0x3fff_ffff,
        -0x3fff_ffff <= input.start.1 <= 0x3fff_ffff,
        plots(input, steps as int) <= usize::MAX,
    ensures
        r == plots(input, steps as int),
{
    let side: usize = 2 * steps + 1;
    let ghost n = steps as int;
    let mut older = blank(side, side);
    let mut last = blank(side, side);
    let mut cur = blank(side, side);
    assert(cur@[steps as int]@.len() == side);
    mark(&mut cur, steps, steps);
    proof {
        assert forall|r: int, c: int| 0 <= r <= 2 * n && 0 <= c <= 2 * n implies (
        #[trigger] cur@[r]@[c]) == input.reached(0, cell_pos(input, n, r, c)) by {
            if r != n {
            }
        }
        assert(agrees(older@, input, n, -2));
        assert(agrees(last@, input, n, -1));
    }
    let mut k: usize = 0;
    while k < steps
        invariant
            k <= steps,
            n == steps,
            side == 2 * steps + 1,
            steps <= 0x3fff_ffff,
            input.is_valid(),
            -0x3fff_ffff <= input.start.0 <= 0x3fff_ffff,
            -0x3fff_ffff <= input.start.1 <= 0x3fff_ffff,
            agrees(cur@, input, n, k as int),
            agrees(last@, input, n, k - 1),
            agrees(older@, input, n, k - 2),
        decreases steps - k,
    {
        let mut next: Vec<Vec<bool>> = Vec::new();
        let mut r: usize = 0;
        while r < side
            invariant
                r <= side,
                k < steps,
                n == steps,
                side == 2 * steps + 1,
                steps <= 0x3fff_ffff,
                input.is_valid(),
                -0x3fff_ffff <= input.start.0 <= 0x3fff_ffff,
                -0x3fff_ffff <= input.start.1 <= 0x3fff_ffff,
                agrees(cur@, input, n, k as int),
                agrees(last@, input, n, k - 1),
                agrees(older@, input, n, k - 2),
                next@.len() == r,
                forall|a: int| 0 <= a < r ==> (#[trigger] next@[a])@.len() == side,
                forall|a: int, b: int|
                    0 <= a < r && 0 <= b < side ==> (#[trigger] next@[a]@[b]) == input.reached(
                        k + 1,
                        cell_pos(input, n, a, b),
                    ),
            decreases side - r,
        {
            let mut row: Vec<bool> = Vec::new();
            let mut c: usize = 0;
            while c < side
                invariant
                    r < side,
                    c <= side,
                    k < steps,
                    n == steps,
                    side == 2 * steps + 1,
                    steps <= 0x3fff_ffff,
                    input.is_valid(),
                    -0x3fff_ffff <= input.start.0 <= 0x3fff_ffff,
                    -0x3fff_ffff <= input.start.1 <= 0x3fff_ffff,
                    agrees(cur@, input, n, k as int),
                    agrees(last@, input, n, k - 1),
                    agrees(older@, input, n, k - 2),
                    row@.len() == c,
                    forall|b: int|
                        0 <= b < c ==> row@[b] == input.reached(k + 1, cell_pos(input, n, r as int, b)),
                decreases side - c,
            {
                let ghost q = cell_pos(input, n, r as int, c as int);
                let qr: i32 = (input.start.0 as i64 - steps as i64 + r as i64) as i32;
                let qc: i32 = (input.start.1 as i64 - steps as i64 + c as i64) as i32;
                assert(last@[r as int]@.len() == side);
                let mut v = is_marked(&last, r, c);
                if !v && input.get((qr, qc)) != ROCK {
                    let ri = r as i64;
                    let ci = c as i64;
                    v = is_fresh(&cur, &older, side, ri, ci - 1) || is_fresh(
                        &cur,
                        &older,
                        side,
                        ri,
                        ci + 1,
                    ) || is_fresh(&cur, &older, side, ri - 1, ci) || is_fresh(
                        &cur,
                        &older,
                        side,
                        ri + 1,
                        ci,
                    );
                }
                proof {
                    let kk = k as int;
                    let west = (q.0 - step(0).0, q.1 - step(0).1);
                    let east = (q.0 - step(1).0, q.1 - step(1).1);
                    let north = (q.0 - step(2).0, q.1 - step(2).1);
                    let south = (q.0 - step(3).0, q.1 - step(3).1);
                    assert(west == cell_pos(input, n, r as int, c - 1));
                    assert(east == cell_pos(input, n, r as int, c + 1));
                    assert(north == cell_pos(input, n, r - 1, c as int));
                    assert(south == cell_pos(input, n, r + 1, c as int));
                    lemma_fresh_cell(input, n, kk, cur@, older@, r as int, c - 1);
                    lemma_fresh_cell(input, n, kk, cur@, older@, r as int, c + 1);
                    lemma_fresh_cell(input, n, kk, cur@, older@, r - 1, c as int);
                    lemma_fresh_cell(input, n, kk, cur@, older@, r + 1, c as int);
                    assert(last@[r as int]@[c as int] == input.reached(kk - 1, q));
                    assert(v == input.reached(kk + 1, q));
                }
                row.push(v);
                c += 1;
            }
            next.push(row);
            r += 1;
        }
        older = last;
        last = cur;
        cur = next;
        k += 1;
    }
    let mut count: u64 = 0;
    let mut r: usize = 0;
    while r < side
        invariant
            r <= side,
            n == steps,
            side == 2 * steps + 1,
            steps <= 0x3fff_ffff,
            agrees(cur@, input, n, n),
            count == count_in_rows(input, n, r as int),
            count <= r * 0x8000_0000,
        decreases side - r,
    {
        let mut in_row: u64 = 0;
        let mut c: usize = 0;
        while c < side
            invariant
                r < side,
                c <= side,
                n == steps,
                side == 2 * steps + 1,
                steps <= 0x3fff_ffff,
                agrees(cur@, input, n, n),
                in_row == count_in_row(input, n, r as int, c as int),
                in_row <= c,
            decreases side - c,
        {
            assert(cur@[r as int]@.len() == side);
            if is_marked(&cur, r, c) {
                in_row += 1;
            }
            c += 1;
        }
        count += in_row;
        r += 1;
    }
    count as usize
}

/// A cell of the window came new into the set of step `k` exactly if it is
/// marked for that step and not for two steps before; no cell outside the
/// window came new into it.
proof fn lemma_fresh_cell(
    input: Input,
    n: int,
    k: int,
    cur: Seq<Vec<bool>>,
    older: Seq<Vec<bool>>,
    r: int,
    c: int,
)
    requires
        0 <= k <= n,
        agrees(cur, input, n, k),
        agrees(older, input, n, k - 2),
    ensures
        input.fresh(k, cell_pos(input, n, r, c)) == (0 <= r <= 2 * n && 0 <= c <= 2 * n && cur[r]@[c]
            && !older[r]@[c]),
{
    let p = cell_pos(input, n, r, c);
    if 0 <= r <= 2 * n && 0 <= c <= 2 * n {
        assert(cur[r]@[c] == input.reached(k, p));
        assert(older[r]@[c] == input.reached(k - 2, p));
    } else {
        if input.reached(k, p) {
            lemma_radius(input, k, p);
        }
    }
}

// ----------------------------------------------------------------------
// Reading twice
// ----------------------------------------------------------------------


/// Reading a text twice gives the same value: two gardens that one text
/// says have the same size, start and rows.
pub proof fn lemma_parse_is_unique(a: Input, b: Input, text: Seq<u8>)
    requires
        a.is_parse_of(text),
        b.is_parse_of(text),
    ensures
        a.size == b.size,
        a.start == b.start,
        a.map@.len() == b.map@.len(),
        forall|i: int| 0 <= i < a.map@.len() ==> (#[trigger] a.map@[i])@ == b.map@[i]@,
{
    assert forall|i: int| 0 <= i < a.map@.len() implies (#[trigger] a.map@[i])@ == b.map@[i]@ by {
        assert(a.map@[i]@ =~= b.map@[i]@);
    }
}

} // verus!
