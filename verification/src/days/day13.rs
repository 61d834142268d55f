//! Patterns of ash and rocks, each with a line of reflection between two
//! rows or two columns. The first part adds up where the lines lie. The
//! second part finds, in every pattern, the one smudge that makes another
//! line of reflection, and adds up where those lie.

use crate::text::{ascii_bytes, lines, rows_of, split, split_bytes, split_lines, to_ascii, ParseError};
use vstd::prelude::*;

verus! {

/// A pattern: its height and width, and its rows and its columns as bit
/// patterns, a rock being a one. The first byte of a row and the first row
/// of a column are the highest bits.
#[derive(Debug, PartialEq, Eq)]
pub struct Mirror {
    pub size: (usize, usize),
    pub rows: Vec<u32>,
    pub cols: Vec<u32>,
}

/// The patterns.
#[derive(Debug, PartialEq, Eq)]
pub struct Input {
    pub mirrors: Vec<Mirror>,
}

/// The byte that stands for a rock.
pub const ROCK: u8 = 35;

/// The bit pattern of the first `k` bytes of a line.
pub open spec fn row_bits(line: Seq<u8>, k: int) -> u32
    decreases k,
{
    if k <= 0 {
        0
    } else {
        (row_bits(line, k - 1) << 1u32) | (if line[k - 1] == ROCK { 1u32 } else { 0u32 })
    }
}

/// The bit pattern of a column: the first `k` rows, each shifted to the
/// right by `shift` bits, give one bit each.
pub open spec fn col_bits(rows: Seq<u32>, shift: u32, k: int) -> u32
    decreases k,
{
    if k <= 0 {
        0
    } else {
        (col_bits(rows, shift, k - 1) << 1u32) | ((rows[k - 1] >> shift) & 1u32)
    }
}

/// The rows `i` and `i + 1` mirror each other, and so do the rows around
/// them as far as the pattern reaches.
pub open spec fn mirrors_at(v: Seq<u32>, i: int) -> bool {
    forall|j: int| 0 <= j && i - j >= 0 && i + j + 1 < v.len() ==> #[trigger] same_pair(v, i, j)
}

/// The rows at the distance `j` from the rows `i` and `i + 1` are equal.
pub open spec fn same_pair(v: Seq<u32>, i: int, j: int) -> bool {
    v[i - j] == v[i + j + 1]
}

/// The first index from `lo` up to `hi` at which the pattern mirrors, or
/// `hi` if there is none.
pub open spec fn first_mirror(v: Seq<u32>, lo: int, hi: int) -> int
    decreases hi - lo,
{
    if lo >= hi {
        hi
    } else if mirrors_at(v, lo) {
        lo
    } else {
        first_mirror(v, lo + 1, hi)
    }
}

/// The line of reflection of a list of rows: the number of rows before it.
/// With a row to go through, only lines are looked at that the row lies next
/// to or whose reflection could reach it.
pub open spec fn symmetry(v: Seq<u32>, through: Option<usize>) -> Option<usize> {
    let lo = match through {
        Some(inc) => inc as int / 2,
        None => 0,
    };
    let hi = match through {
        Some(inc) => (inc + v.len()) / 2,
        None => v.len() - 1,
    };
    let i = first_mirror(v, lo, hi);
    if lo <= i < hi {
        Some((i + 1) as usize)
    } else {
        None
    }
}

/// The value of a pattern: a hundred times the rows above a line of
/// reflection between rows, or else the columns before one between
/// columns.
pub open spec fn value_of(rows: Seq<u32>, cols: Seq<u32>, through: Option<(usize, usize)>)
    -> Option<usize> {
    let r = symmetry(
        rows,
        match through {
            Some(p) => Some(p.0),
            None => None,
        },
    );
    match r {
        Some(v) => Some((v * 100) as usize),
        None => symmetry(
            cols,
            match through {
                Some(p) => Some(p.1),
                None => None,
            },
        ),
    }
}

/// The rows of a pattern with the tile at `pos` turned over.
pub open spec fn flipped_rows(m: Mirror, pos: (usize, usize)) -> Seq<u32> {
    m.rows@.update(
        pos.0 as int,
        m.rows@[pos.0 as int] ^ (1u32 << ((m.size.1 - pos.1 - 1) as u32)),
    )
}

/// The columns of a pattern with the tile at `pos` turned over.
pub open spec fn flipped_cols(m: Mirror, pos: (usize, usize)) -> Seq<u32> {
    m.cols@.update(
        pos.1 as int,
        m.cols@[pos.1 as int] ^ (1u32 << ((m.size.0 - pos.0 - 1) as u32)),
    )
}

/// The value of the pattern with the tile at `pos` turned over, for lines
/// of reflection that the tile takes part in.
pub open spec fn smudge_value(m: Mirror, pos: (usize, usize)) -> Option<usize> {
    value_of(flipped_rows(m, pos), flipped_cols(m, pos), Some(pos))
}

/// The first tile from number `k` on, counted row by row, whose turning
/// over gives the pattern a value; the number of tiles if there is none.
pub open spec fn first_smudge(m: Mirror, k: int) -> int
    decreases m.size.0 * m.size.1 - k,
{
    if k < 0 || k >= m.size.0 * m.size.1 || m.size.1 == 0 {
        m.size.0 * m.size.1
    } else if smudge_value(m, ((k / m.size.1 as int) as usize, (k % m.size.1 as int) as usize))
        is Some {
        k
    } else {
        first_smudge(m, k + 1)
    }
}

impl Mirror {
    /// The pattern is whole: it has its height in rows and its width in
    /// columns, and neither is more than the 32 bits of a pattern.
    pub open spec fn is_valid(&self) -> bool {
        &&& self.rows@.len() == self.size.0
        &&& self.cols@.len() == self.size.1
        &&& 1 <= self.size.0 <= 32
        &&& 1 <= self.size.1 <= 32
    }

    /// The value of the pattern after its smudge is turned over.
    pub open spec fn smudged(&self) -> Option<usize> {
        let k = first_smudge(*self, 0);
        if 0 <= k < self.size.0 * self.size.1 && self.size.1 > 0 {
            smudge_value(
                *self,
                ((k / self.size.1 as int) as usize, (k % self.size.1 as int) as usize),
            )
        } else {
            None
        }
    }

    /// The block has a line, and its first line is no longer than 32 bytes.
    pub open spec fn accepts(block: Seq<u8>) -> bool {
        lines(block).len() > 0 && lines(block)[0].len() <= 32
    }

    /// This pattern is what the block says: one row for each line, and one
    /// column for each byte of the first line.
    pub open spec fn is_parse_of(&self, block: Seq<u8>) -> bool {
        let ls = lines(block);
        &&& self.size == (ls.len() as usize, ls[0].len() as usize)
        &&& self.rows@.len() == ls.len()
        &&& self.cols@.len() == ls[0].len()
        &&& forall|i: int|
            0 <= i < ls.len() ==> #[trigger] self.rows@[i] == row_bits(ls[i], ls[i].len() as int)
        &&& forall|c: int|
            0 <= c < ls[0].len() ==> #[trigger] self.cols@[c] == col_bits(
                self.rows@,
                (ls[0].len() - c - 1) as u32,
                ls.len() as int,
            )
    }

    /// Reads a pattern from the bytes of its block.
    pub fn read(block: &[u8]) -> (r: Option<Mirror>)
        ensures
            match r {
                Some(m) => Mirror::accepts(block@) && m.is_parse_of(block@),
                None => !Mirror::accepts(block@),
            },
    {
        let ls = split_lines(block);
        let ghost rows_text = lines(block@);
        if ls.len() == 0 {
            return None;
        }
        assert(ls@[0]@ == rows_text[0]);
        let width = ls[0].len();
        if width > 32 {
            return None;
        }
        let mut rows: Vec<u32> = Vec::new();
        let mut i: usize = 0;
        while i < ls.len()
            invariant
                i <= ls@.len(),
                rows_of(ls@) == rows_text,
                rows@.len() == i,
                forall|k: int|
                    0 <= k < i ==> #[trigger] rows@[k] == row_bits(
                        rows_text[k],
                        rows_text[k].len() as int,
                    ),
            decreases ls@.len() - i,
        {
            let line = &ls[i];
            assert(line@ == rows_text[i as int]);
            let mut acc: u32 = 0;
            let mut j: usize = 0;
            while j < line.len()
                invariant
                    j <= line@.len(),
                    acc == row_bits(line@, j as int),
                decreases line@.len() - j,
            {
                acc = (acc << 1u32) | (if line[j] == ROCK { 1u32 } else { 0u32 });
                j += 1;
            }
            rows.push(acc);
            i += 1;
        }
        let height = rows.len();
        let mut cols: Vec<u32> = Vec::new();
        let mut c: usize = 0;
        while c < width
            invariant
                c <= width <= 32,
                height == rows@.len(),
                cols@.len() == c,
                forall|k: int|
                    0 <= k < c ==> #[trigger] cols@[k] == col_bits(
                        rows@,
                        (width - k - 1) as u32,
                        height as int,
                    ),
            decreases width - c,
        {
            let shift: u32 = (width - c - 1) as u32;
            let mut acc: u32 = 0;
            let mut r: usize = 0;
            while r < height
                invariant
                    r <= height,
                    height == rows@.len(),
                    shift < 32,
                    acc == col_bits(rows@, shift, r as int),
                decreases height - r,
            {
                acc = (acc << 1u32) | ((rows[r] >> shift) & 1u32);
                r += 1;
            }
            cols.push(acc);
            c += 1;
        }
        assert(rows_text.len() == ls@.len());
        Some(Mirror { size: (height, width), rows, cols })
    }

    /// Reads a pattern: lines of `#` and `.`.
    pub fn from_str(s: &str) -> (r: Result<Mirror, ParseError>)
        ensures
            match r {
                Ok(m) => ascii_bytes(s@) is Some && Mirror::accepts(ascii_bytes(s@)->0)
                    && m.is_parse_of(ascii_bytes(s@)->0),
                Err(_) => ascii_bytes(s@) is None || !Mirror::accepts(ascii_bytes(s@)->0),
            },
    {
        match to_ascii(s) {
            Some(b) => match Mirror::read(b.as_slice()) {
                Some(m) => Ok(m),
                None => Err(ParseError {  }),
            },
            None => Err(ParseError {  }),
        }
    }

    /// The line of reflection of a list of rows.
    pub fn find_symmetry(v: &[u32], through: Option<usize>) -> (r: Option<usize>)
        requires
            v@.len() >= 1,
            match through {
                Some(inc) => inc < v@.len(),
                None => true,
            },
        ensures
            r == symmetry(v@, through),
    {
        let (lo, hi): (usize, usize) = match through {
            Some(inc) => (inc / 2, ((inc as u128 + v.len() as u128) / 2) as usize),
            None => (0, v.len() - 1),
        };
        let mut i: usize = lo;
        while i < hi
            invariant
                lo <= i || hi <= lo,
                i <= hi || hi <= lo,
                hi <= lo ==> i == lo,
                hi <= v@.len() - 1,
                lo == match through {
                    Some(inc) => inc as int / 2,
                    None => 0,
                },
                hi == match through {
                    Some(inc) => (inc + v@.len()) / 2,
                    None => v@.len() - 1,
                },
                first_mirror(v@, lo as int, hi as int) == first_mirror(v@, i as int, hi as int),
            decreases hi - i,
        {
            let limit: usize = if i + 1 < v.len() - i - 1 { i + 1 } else { v.len() - i - 1 };
            let mut all = true;
            let mut j: usize = 0;
            while j < limit
                invariant
                    j <= limit,
                    i < v@.len(),
                    limit <= i + 1,
                    limit <= v@.len() - i - 1,
                    (limit == i + 1 || limit == v@.len() - i - 1),
                    all == forall|k: int| 0 <= k < j ==> #[trigger] same_pair(v@, i as int, k),
                decreases limit - j,
            {
                assert(same_pair(v@, i as int, j as int) == (v@[i - j] == v@[i + j + 1]));
                if v[i - j] != v[i + j + 1] {
                    all = false;
                }
                j += 1;
            }
            if all {
                assert(mirrors_at(v@, i as int));
                return Some(i + 1);
            }
            assert(!mirrors_at(v@, i as int));
            i += 1;
        }
        None
    }

    /// The value of the pattern.
    pub fn symmetry_value(&self, through: Option<(usize, usize)>) -> (r: Option<usize>)
        requires
            self.is_valid(),
            match through {
                Some(p) => p.0 < self.size.0 && p.1 < self.size.1,
                None => true,
            },
        ensures
            r == value_of(self.rows@, self.cols@, through),
    {
        let r = Mirror::find_symmetry(
            self.rows.as_slice(),
            match through {
                Some(p) => Some(p.0),
                None => None,
            },
        );
        match r {
            Some(v) => Some(v * 100),
            None => Mirror::find_symmetry(
                self.cols.as_slice(),
                match through {
                    Some(p) => Some(p.1),
                    None => None,
                },
            ),
        }
    }

    /// Turns the tile at `pos` over.
    pub fn flip_one(&mut self, pos: (usize, usize))
        requires
            old(self).is_valid(),
            pos.0 < old(self).size.0,
            pos.1 < old(self).size.1,
        ensures
            final(self).size == old(self).size,
            final(self).rows@ == flipped_rows(*old(self), pos),
            final(self).cols@ == flipped_cols(*old(self), pos),
            final(self).is_valid(),
    {
        let a: u32 = (self.size.1 - pos.1 - 1) as u32;
        let b: u32 = (self.size.0 - pos.0 - 1) as u32;
        let r = self.rows[pos.0] ^ (1u32 << a);
        let c = self.cols[pos.1] ^ (1u32 << b);
        self.rows[pos.0] = r;
        self.cols[pos.1] = c;
    }

    /// The value of the pattern after its smudge is turned over: the tiles
    /// are tried row by row, and the first one counts that gives a line of
    /// reflection which it takes part in.
    pub fn symmetry_value_with_flip(&self) -> (r: usize)
        requires
            self.is_valid(),
            self.smudged() is Some,
        ensures
            Some(r) == self.smudged(),
    {
        let mut flippable = Mirror {
            size: self.size,
            rows: copy_bits(&self.rows),
            cols: copy_bits(&self.cols),
        };
        let ghost me = *self;
        let mut i: usize = 0;
        let mut k: Ghost<int> = Ghost(0);
        while i < self.size.0
            invariant
                i <= self.size.0,
                me == *self,
                self.is_valid(),
                flippable.size == self.size,
                flippable.rows@ == self.rows@,
                flippable.cols@ == self.cols@,
                k@ == i * self.size.1,
                first_smudge(me, 0) == first_smudge(me, k@),
                self.smudged() is Some,
            decreases self.size.0 - i,
        {
            let mut j: usize = 0;
            while j < self.size.1
                invariant
                    i < self.size.0,
                    j <= self.size.1,
                    me == *self,
                    self.is_valid(),
                    flippable.size == self.size,
                    flippable.rows@ == self.rows@,
                    flippable.cols@ == self.cols@,
                    k@ == i * self.size.1 + j,
                    first_smudge(me, 0) == first_smudge(me, k@),
                    self.smudged() is Some,
                decreases self.size.1 - j,
            {
                let pos = (i, j);
                proof {
                    let w = self.size.1 as int;
                    assert(k@ / w == i && k@ % w == j) by (nonlinear_arith)
                        requires
                            k@ == i * w + j,
                            0 <= j < w,
                            0 <= i,
                    ;
                    assert(k@ < self.size.0 * w) by (nonlinear_arith)
                        requires
                            k@ == i * w + j,
                            0 <= j < w,
                            0 <= i < self.size.0,
                    ;
                    assert(flipped_rows(flippable, pos) == flipped_rows(me, pos));
                    assert(flipped_cols(flippable, pos) == flipped_cols(me, pos));
                }
                flippable.flip_one(pos);
                let result = flippable.symmetry_value(Some(pos));
                let ghost turned = flippable;
                flippable.flip_one(pos);
                proof {
                    lemma_flip_twice(
                        self.rows@[i as int],
                        (self.size.1 - j - 1) as u32,
                    );
                    lemma_flip_twice(
                        self.cols@[j as int],
                        (self.size.0 - i - 1) as u32,
                    );
                    assert(flippable.rows@ =~= self.rows@);
                    assert(flippable.cols@ =~= self.cols@);
                }
                match result {
                    Some(v) => {
                        return v;
                    },
                    None => {},
                }
                proof {
                    k@ = k@ + 1;
                }
                j += 1;
            }
            proof {
                assert((i + 1) * self.size.1 == i * self.size.1 + self.size.1) by (nonlinear_arith);
            }
            i += 1;
        }
        proof {
            assert(first_smudge(me, k@) == me.size.0 * me.size.1);
        }
        0
    }
}

/// Turning a bit over twice changes nothing.
proof fn lemma_flip_twice(v: u32, k: u32)
    requires
        k < 32,
    ensures
        (v ^ (1u32 << k)) ^ (1u32 << k) == v,
{
    assert((v ^ (1u32 << k)) ^ (1u32 << k) == v) by (bit_vector);
}

/// A copy of a list of bit patterns.
fn copy_bits(v: &Vec<u32>) -> (r: Vec<u32>)
    ensures
        r@ == v@,
{
    let mut r: Vec<u32> = Vec::new();
    let mut k: usize = 0;
    while k < v.len()
        invariant
            k <= v@.len(),
            r@ == v@.subrange(0, k as int),
        decreases v@.len() - k,
    {
        r.push(v[k]);
        assert(r@ =~= v@.subrange(0, k + 1));
        k += 1;
    }
    assert(v@.subrange(0, k as int) =~= v@);
    r
}

/// The two line feeds that part the patterns.
pub open spec fn gap() -> Seq<u8> {
    seq![10u8, 10u8]
}

/// The sum of the values of the first `k` patterns.
pub open spec fn value_sum(mirrors: Seq<Mirror>, k: int) -> int
    decreases k,
{
    if k <= 0 {
        0
    } else {
        value_sum(mirrors, k - 1) + value_of(mirrors[k - 1].rows@, mirrors[k - 1].cols@, None)->0
    }
}

/// The sum of the values of the first `k` patterns after their smudges are
/// turned over.
pub open spec fn smudged_sum(mirrors: Seq<Mirror>, k: int) -> int
    decreases k,
{
    if k <= 0 {
        0
    } else {
        smudged_sum(mirrors, k - 1) + mirrors[k - 1].smudged()->0
    }
}

impl Input {
    /// Every pattern is whole.
    pub open spec fn is_valid(&self) -> bool {
        forall|k: int| 0 <= k < self.mirrors@.len() ==> (#[trigger] self.mirrors@[k]).is_valid()
    }

    /// Every block of the text, of those that empty lines part, is a
    /// pattern.
    pub open spec fn accepts(text: Seq<u8>) -> bool {
        forall|i: int|
            0 <= i < split(text, gap()).len() ==> Mirror::accepts(#[trigger] split(text, gap())[i])
    }

    /// This value is what the text says: one pattern for each block.
    pub open spec fn is_parse_of(&self, text: Seq<u8>) -> bool {
        &&& self.mirrors@.len() == split(text, gap()).len()
        &&& forall|i: int|
            0 <= i < self.mirrors@.len() ==> (#[trigger] self.mirrors@[i]).is_parse_of(
                split(text, gap())[i],
            )
    }

    /// Reads the patterns. A text is accepted if it is ASCII and each of
    /// its blocks is a pattern.
    pub fn from_str(s: &str) -> (r: Result<Input, ParseError>)
        ensures
            match r {
                Ok(v) => ascii_bytes(s@) is Some && Input::accepts(ascii_bytes(s@)->0)
                    && v.is_parse_of(ascii_bytes(s@)->0),
                Err(_) => ascii_bytes(s@) is None || !Input::accepts(ascii_bytes(s@)->0),
            },
    {
        let bytes = match to_ascii(s) {
            Some(b) => b,
            None => { return Err(ParseError {  }); },
        };
        let ghost text = bytes@;
        let pat: [u8; 2] = [10, 10];
        assert(pat@ =~= gap());
        let blocks = split_bytes(bytes.as_slice(), pat.as_slice());
        let ghost p = split(text, gap());
        let mut mirrors: Vec<Mirror> = Vec::new();
        let mut i: usize = 0;
        while i < blocks.len()
            invariant
                i <= blocks@.len(),
                rows_of(blocks@) == p,
                p == split(text, gap()),
                ascii_bytes(s@) == Some(text),
                mirrors@.len() == i,
                forall|k: int| 0 <= k < i ==> Mirror::accepts(#[trigger] p[k]),
                forall|k: int| 0 <= k < i ==> (#[trigger] mirrors@[k]).is_parse_of(p[k]),
            decreases blocks@.len() - i,
        {
            assert(blocks@[i as int]@ == p[i as int]);
            assert(rows_of(blocks@).len() == blocks@.len());
            match Mirror::read(blocks[i].as_slice()) {
                Some(m) => {
                    mirrors.push(m);
                },
                None => {
                    assert(!Mirror::accepts(p[i as int]));
                    return Err(ParseError {  });
                },
            }
            i += 1;
        }
        assert(rows_of(blocks@).len() == blocks@.len());
        Ok(Input { mirrors })
    }
}

/// The sum of the values of the patterns.
pub fn part1(input: Input) -> (r: usize)
    requires
        input.is_valid(),
        forall|k: int|
            0 <= k < input.mirrors@.len() ==> value_of(
                (#[trigger] input.mirrors@[k]).rows@,
                input.mirrors@[k].cols@,
                None,
            ) is Some,
        forall|k: int|
            0 <= k <= input.mirrors@.len() ==> #[trigger] value_sum(input.mirrors@, k)
                <= usize::MAX,
    ensures
        r == value_sum(input.mirrors@, input.mirrors@.len() as int),
{
    let mut sum: usize = 0;
    let mut k: usize = 0;
    while k < input.mirrors.len()
        invariant
            k <= input.mirrors@.len(),
            input.is_valid(),
            forall|j: int|
                0 <= j < input.mirrors@.len() ==> value_of(
                    (#[trigger] input.mirrors@[j]).rows@,
                    input.mirrors@[j].cols@,
                    None,
                ) is Some,
            forall|j: int|
                0 <= j <= input.mirrors@.len() ==> #[trigger] value_sum(input.mirrors@, j)
                    <= usize::MAX,
            sum == value_sum(input.mirrors@, k as int),
        decreases input.mirrors@.len() - k,
    {
        proof {
            assert(input.mirrors@[k as int].is_valid());
            assert(value_sum(input.mirrors@, k + 1) <= usize::MAX);
        }
        match input.mirrors[k].symmetry_value(None) {
            Some(v) => {
                sum = sum + v;
            },
            None => {},
        }
        k += 1;
    }
    sum
}

/// The sum of the values of the patterns after their smudges are turned
/// over.
pub fn part2(input: Input) -> (r: usize)
    requires
        input.is_valid(),
        forall|k: int| 0 <= k < input.mirrors@.len() ==> (#[trigger] input.mirrors@[k]).smudged() is Some,
        forall|k: int|
            0 <= k <= input.mirrors@.len() ==> #[trigger] smudged_sum(input.mirrors@, k)
                <= usize::MAX,
    ensures
        r == smudged_sum(input.mirrors@, input.mirrors@.len() as int),
{
    let mut sum: usize = 0;
    let mut k: usize = 0;
    while k < input.mirrors.len()
        invariant
            k <= input.mirrors@.len(),
            input.is_valid(),
            forall|j: int|
                0 <= j < input.mirrors@.len() ==> (#[trigger] input.mirrors@[j]).smudged()
                    is Some,
            forall|j: int|
                0 <= j <= input.mirrors@.len() ==> #[trigger] smudged_sum(input.mirrors@, j)
                    <= usize::MAX,
            sum == smudged_sum(input.mirrors@, k as int),
        decreases input.mirrors@.len() - k,
    {
        proof {
            assert(input.mirrors@[k as int].is_valid());
            assert(smudged_sum(input.mirrors@, k + 1) <= usize::MAX);
        }
        sum = sum + input.mirrors[k].symmetry_value_with_flip();
        k += 1;
    }
    sum
}

// ----------------------------------------------------------------------
// Reading twice
// ----------------------------------------------------------------------


impl Mirror {
    /// The two patterns have the same size, rows and columns.
    pub open spec fn same_as(&self, other: Mirror) -> bool {
        self.size == other.size && self.rows@ == other.rows@ && self.cols@ == other.cols@
    }

    /// Reading a block twice gives the same pattern.
    pub proof fn lemma_parse_is_unique(a: Mirror, b: Mirror, block: Seq<u8>)
        requires
            a.is_parse_of(block),
            b.is_parse_of(block),
        ensures
            a.same_as(b),
    {
        assert(a.rows@ =~= b.rows@);
        assert(a.cols@ =~= b.cols@);
    }
}

/// Reading a text twice gives the same value: two lists of patterns that
/// one text says have the same patterns.
pub proof fn lemma_parse_is_unique(a: Input, b: Input, text: Seq<u8>)
    requires
        a.is_parse_of(text),
        b.is_parse_of(text),
    ensures
        a.mirrors@.len() == b.mirrors@.len(),
        forall|i: int| 0 <= i < a.mirrors@.len() ==> (#[trigger] a.mirrors@[i]).same_as(b.mirrors@[i]),
{
    assert forall|i: int| 0 <= i < a.mirrors@.len() implies (#[trigger] a.mirrors@[i]).same_as(
        b.mirrors@[i],
    ) by {
        Mirror::lemma_parse_is_unique(a.mirrors@[i], b.mirrors@[i], split(text, gap())[i]);
    }
}

} // verus!
