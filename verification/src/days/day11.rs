//! An image of galaxies in a universe that has expanded: every row and
//! every column without a galaxy counts as many times as the expansion
//! says. Both parts add up the distances of all pairs of galaxies, for an
//! expansion of two and of a million.

use crate::geometry::{manhattan, manhattan_distance_usize};
use crate::text::{ascii_bytes, lines, rows_of, split_lines, to_ascii, ParseError};
use vstd::prelude::*;

verus! {

/// The galaxies as row and column, and the rows and the columns that hold
/// none.
#[derive(Debug, PartialEq, Eq)]
pub struct Input {
    pub galaxies: Vec<(usize, usize)>,
    pub empty: [Vec<usize>; 2],
}

/// The byte that stands for a galaxy.
pub const GALAXY: u8 = 35;

/// The galaxies of the first `j` bytes of the line in row `i`.
pub open spec fn galaxies_in_line(line: Seq<u8>, i: int, j: int) -> Seq<(usize, usize)>
    decreases j,
{
    if j <= 0 {
        Seq::empty()
    } else if line[j - 1] == GALAXY {
        galaxies_in_line(line, i, j - 1).push((i as usize, (j - 1) as usize))
    } else {
        galaxies_in_line(line, i, j - 1)
    }
}

/// The galaxies of the first `k` lines, in reading order.
pub open spec fn galaxies_of(ls: Seq<Seq<u8>>, k: int) -> Seq<(usize, usize)>
    decreases k,
{
    if k <= 0 {
        Seq::empty()
    } else {
        galaxies_of(ls, k - 1) + galaxies_in_line(ls[k - 1], k - 1, ls[k - 1].len() as int)
    }
}

/// A galaxy lies in the row, or in the column if `axis` is 1.
pub open spec fn is_occupied(galaxies: Seq<(usize, usize)>, axis: int, i: int) -> bool {
    exists|g: int|
        0 <= g < galaxies.len() && (if axis == 0 {
            (#[trigger] galaxies[g]).0
        } else {
            galaxies[g].1
        }) == i
}

/// The rows, or the columns, below `k` that hold no galaxy, in rising
/// order.
pub open spec fn empty_below(galaxies: Seq<(usize, usize)>, axis: int, k: int) -> Seq<usize>
    decreases k,
{
    if k <= 0 {
        Seq::empty()
    } else if is_occupied(galaxies, axis, k - 1) {
        empty_below(galaxies, axis, k - 1)
    } else {
        empty_below(galaxies, axis, k - 1).push((k - 1) as usize)
    }
}

/// How many of the first `k` entries lie strictly between `a` and `b`.
pub open spec fn between(v: Seq<usize>, a: int, b: int, k: int) -> int
    decreases k,
{
    if k <= 0 {
        0
    } else {
        between(v, a, b, k - 1) + if (a < v[k - 1] < b) || (b < v[k - 1] < a) {
            1int
        } else {
            0int
        }
    }
}

/// The distance of two galaxies: their Manhattan distance, and for every
/// empty row and column between them the expansion less one on top.
pub open spec fn distance(
    galaxies: Seq<(usize, usize)>,
    rows: Seq<usize>,
    cols: Seq<usize>,
    g1: int,
    g2: int,
    expansion: int,
) -> int {
    let a = galaxies[g1];
    let b = galaxies[g2];
    manhattan((a.0 as int, a.1 as int), (b.0 as int, b.1 as int)) + between(
        rows,
        a.0 as int,
        b.0 as int,
        rows.len() as int,
    ) * (expansion - 1) + between(cols, a.1 as int, b.1 as int, cols.len() as int) * (expansion
        - 1)
}

/// The sum of the distances from the galaxy `g1` to the galaxies after it
/// and before `g2`.
pub open spec fn row_sum(
    galaxies: Seq<(usize, usize)>,
    rows: Seq<usize>,
    cols: Seq<usize>,
    g1: int,
    g2: int,
    expansion: int,
) -> int
    decreases g2 - g1,
{
    if g2 <= g1 + 1 {
        0
    } else {
        row_sum(galaxies, rows, cols, g1, g2 - 1, expansion) + distance(
            galaxies,
            rows,
            cols,
            g1,
            g2 - 1,
            expansion,
        )
    }
}

/// The sum of the distances of all pairs of galaxies whose first is one of
/// the first `g1`.
pub open spec fn pairs_sum(
    galaxies: Seq<(usize, usize)>,
    rows: Seq<usize>,
    cols: Seq<usize>,
    g1: int,
    expansion: int,
) -> int
    decreases g1,
{
    if g1 <= 0 {
        0
    } else {
        pairs_sum(galaxies, rows, cols, g1 - 1, expansion) + row_sum(
            galaxies,
            rows,
            cols,
            g1 - 1,
            galaxies.len() as int,
            expansion,
        )
    }
}

impl Input {
    /// The rows that hold no galaxy.
    pub open spec fn rows(&self) -> Seq<usize> {
        self.empty@[0]@
    }

    /// The columns that hold no galaxy.
    pub open spec fn cols(&self) -> Seq<usize> {
        self.empty@[1]@
    }

    /// The distance of two galaxies.
    pub open spec fn dist(&self, g1: int, g2: int, expansion: int) -> int {
        distance(self.galaxies@, self.rows(), self.cols(), g1, g2, expansion)
    }

    /// The sum of the distances of all pairs of galaxies.
    pub open spec fn total(&self, expansion: int) -> int {
        pairs_sum(
            self.galaxies@,
            self.rows(),
            self.cols(),
            self.galaxies@.len() - 1,
            expansion,
        )
    }

    /// Every part of a distance fits the size type.
    pub open spec fn dist_fits(&self, g1: int, g2: int, expansion: int) -> bool {
        let a = self.galaxies@[g1];
        let b = self.galaxies@[g2];
        let m = manhattan((a.0 as int, a.1 as int), (b.0 as int, b.1 as int));
        let r = between(self.rows(), a.0 as int, b.0 as int, self.rows().len() as int) * (
        expansion - 1);
        let c = between(self.cols(), a.1 as int, b.1 as int, self.cols().len() as int) * (
        expansion - 1);
        m <= usize::MAX && r <= usize::MAX && m + r <= usize::MAX && c <= usize::MAX && m + r + c
            <= usize::MAX
    }

    /// Every distance and every sum of distances fits the size type.
    pub open spec fn total_fits(&self, expansion: int) -> bool {
        let n = self.galaxies@.len() as int;
        &&& forall|g1: int, g2: int| 0 <= g1 < g2 < n ==> #[trigger] self.dist_fits(g1, g2, expansion)
        &&& forall|g1: int, g2: int|
            0 <= g1 < n && g1 < g2 <= n ==> pairs_sum(
                self.galaxies@,
                self.rows(),
                self.cols(),
                g1,
                expansion,
            ) + #[trigger] row_sum(self.galaxies@, self.rows(), self.cols(), g1, g2, expansion)
                <= usize::MAX
    }

    /// This value is what the text says: the galaxies are the marks of the
    /// text, and of as many rows and columns as the text has lines those
    /// without a galaxy are listed.
    pub open spec fn is_parse_of(&self, text: Seq<u8>) -> bool {
        let n = lines(text).len() as int;
        &&& self.galaxies@ == galaxies_of(lines(text), n)
        &&& self.rows() == empty_below(self.galaxies@, 0, n)
        &&& self.cols() == empty_below(self.galaxies@, 1, n)
    }

    /// Reads an image. Every text of ASCII characters is one.
    pub fn from_str(s: &str) -> (r: Result<Input, ParseError>)
        ensures
            match r {
                Ok(v) => ascii_bytes(s@) is Some && v.is_parse_of(ascii_bytes(s@)->0),
                Err(_) => ascii_bytes(s@) is None,
            },
    {
        let bytes = match to_ascii(s) {
            Some(b) => b,
            None => { return Err(ParseError {  }); },
        };
        let ghost text = bytes@;
        let ls = split_lines(bytes.as_slice());
        let ghost rows = lines(text);
        let size = ls.len();
        let mut galaxies: Vec<(usize, usize)> = Vec::new();
        let mut i: usize = 0;
        while i < ls.len()
            invariant
                i <= ls@.len(),
                rows_of(ls@) == rows,
                galaxies@ == galaxies_of(rows, i as int),
            decreases ls@.len() - i,
        {
            let line = &ls[i];
            assert(line@ == rows[i as int]);
            let ghost before = galaxies@;
            let mut j: usize = 0;
            while j < line.len()
                invariant
                    j <= line@.len(),
                    galaxies@ == before + galaxies_in_line(line@, i as int, j as int),
                decreases line@.len() - j,
            {
                if line[j] == GALAXY {
                    galaxies.push((i, j));
                    assert(galaxies@ =~= before + galaxies_in_line(line@, i as int, j + 1));
                }
                j += 1;
            }
            i += 1;
        }
        let mut empty_rows: Vec<usize> = Vec::new();
        let mut empty_cols: Vec<usize> = Vec::new();
        let mut i: usize = 0;
        while i < size
            invariant
                i <= size,
                empty_rows@ == empty_below(galaxies@, 0, i as int),
                empty_cols@ == empty_below(galaxies@, 1, i as int),
            decreases size - i,
        {
            if !occupied(&galaxies, 0, i) {
                empty_rows.push(i);
            }
            if !occupied(&galaxies, 1, i) {
                empty_cols.push(i);
            }
            i += 1;
        }
        assert(rows.len() == size);
        Ok(Input { galaxies, empty: [empty_rows, empty_cols] })
    }

    /// The distance of the galaxies `g1` and `g2`.
    pub fn get_distance(&self, g1: usize, g2: usize, expansion: usize) -> (r: usize)
        requires
            g1 < self.galaxies@.len(),
            g2 < self.galaxies@.len(),
            expansion >= 1,
            self.dist_fits(g1 as int, g2 as int, expansion as int),
        ensures
            r == self.dist(g1 as int, g2 as int, expansion as int),
    {
        let a = self.galaxies[g1];
        let b = self.galaxies[g2];
        let m = manhattan_distance_usize(a, b);
        let r = count_between(&self.empty[0], a.0, b.0);
        let c = count_between(&self.empty[1], a.1, b.1);
        m + r * (expansion - 1) + c * (expansion - 1)
    }
}

/// Whether a galaxy lies in the row, or in the column if `axis` is 1.
fn occupied(galaxies: &Vec<(usize, usize)>, axis: usize, i: usize) -> (r: bool)
    ensures
        r == is_occupied(galaxies@, axis as int, i as int),
{
    let mut g: usize = 0;
    while g < galaxies.len()
        invariant
            g <= galaxies@.len(),
            forall|k: int|
                0 <= k < g ==> (if axis == 0 {
                    (#[trigger] galaxies@[k]).0
                } else {
                    galaxies@[k].1
                }) != i,
        decreases galaxies@.len() - g,
    {
        let v = if axis == 0 { galaxies[g].0 } else { galaxies[g].1 };
        if v == i {
            return true;
        }
        g += 1;
    }
    false
}

/// How many entries lie strictly between `a` and `b`.
fn count_between(v: &Vec<usize>, a: usize, b: usize) -> (r: usize)
    ensures
        r == between(v@, a as int, b as int, v@.len() as int),
{
    let mut n: usize = 0;
    let mut k: usize = 0;
    while k < v.len()
        invariant
            k <= v@.len(),
            n == between(v@, a as int, b as int, k as int),
            n <= k,
        decreases v@.len() - k,
    {
        let x = v[k];
        if (a < x && x < b) || (b < x && x < a) {
            n += 1;
        }
        k += 1;
    }
    n
}

/// The sum of the distances of all pairs of galaxies.
pub fn sum_distances(input: &Input, expansion: usize) -> (r: usize)
    requires
        input.galaxies@.len() >= 1,
        expansion >= 1,
        input.total_fits(expansion as int),
    ensures
        r == input.total(expansion as int),
{
    let n = input.galaxies.len();
    let ghost e = expansion as int;
    let mut sol: usize = 0;
    let mut g1: usize = 0;
    while g1 < n - 1
        invariant
            g1 <= n - 1,
            n == input.galaxies@.len(),
            n >= 1,
            expansion >= 1,
            e == expansion,
            input.total_fits(e),
            sol == pairs_sum(input.galaxies@, input.rows(), input.cols(), g1 as int, e),
        decreases n - 1 - g1,
    {
        let ghost base = sol as int;
        let mut g2: usize = g1 + 1;
        while g2 < n
            invariant
                g1 < n - 1,
                g1 + 1 <= g2 <= n,
                n == input.galaxies@.len(),
                expansion >= 1,
                e == expansion,
                input.total_fits(e),
                base == pairs_sum(input.galaxies@, input.rows(), input.cols(), g1 as int, e),
                sol == base + row_sum(
                    input.galaxies@,
                    input.rows(),
                    input.cols(),
                    g1 as int,
                    g2 as int,
                    e,
                ),
            decreases n - g2,
        {
            proof {
                assert(input.dist_fits(g1 as int, g2 as int, e));
                assert(base + row_sum(
                    input.galaxies@,
                    input.rows(),
                    input.cols(),
                    g1 as int,
                    g2 + 1,
                    e,
                ) <= usize::MAX);
            }
            sol = sol + input.get_distance(g1, g2, expansion);
            g2 += 1;
        }
        g1 += 1;
    }
    sol
}

/// The sum of the distances where every empty row and column counts twice.
pub fn part1(input: Input) -> (r: usize)
    requires
        input.galaxies@.len() >= 1,
        input.total_fits(2),
    ensures
        r == input.total(2),
{
    sum_distances(&input, 2)
}

/// The sum of the distances where every empty row and column counts a
/// million times.
pub fn part2(input: Input) -> (r: usize)
    requires
        input.galaxies@.len() >= 1,
        input.total_fits(1000000),
    ensures
        r == input.total(1000000),
{
    sum_distances(&input, 1000000)
}

// ----------------------------------------------------------------------
// Reading twice
// ----------------------------------------------------------------------


/// Reading a text twice gives the same value: two images that one text
/// says have the same galaxies and the same empty rows and columns.
pub proof fn lemma_parse_is_unique(a: Input, b: Input, text: Seq<u8>)
    requires
        a.is_parse_of(text),
        b.is_parse_of(text),
    ensures
        a.galaxies@ == b.galaxies@,
        a.rows() == b.rows(),
        a.cols() == b.cols(),
{
}

} // verus!
