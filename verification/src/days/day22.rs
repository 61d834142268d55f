//! Bricks of sand hang in the air and fall straight down until they rest
//! on the ground or on each other. The first part counts the bricks that
//! could be taken away without another brick falling. The second part adds
//! up, over all bricks, how many other bricks would fall if that one were
//! taken away.

use crate::text::{
    all_i32, ascii_bytes, i32s_of, lines, parse_all_i32, rows_of, split, split_bytes,
    split_lines, to_ascii, ParseError,
};
use vstd::prelude::*;

verus! {

/// A brick: its corners, each as `x`, `y` and `z`.
#[derive(Debug, PartialEq, Eq)]
pub struct Brick {
    pub bounds: Vec<(i32, i32, i32)>,
}

/// The bricks, and one more than the greatest `x` and the greatest `y` of
/// their second corners.
#[derive(Debug, PartialEq, Eq)]
pub struct Input {
    pub bricks: Vec<Brick>,
    pub bound: (i32, i32),
}

/// The corner that a piece writes: its first three numbers, where all that
/// commas part in it are decimal numbers of 32 bits.
pub open spec fn corner_of(piece: Seq<u8>) -> Option<(i32, i32, i32)> {
    let c = split(piece, seq![44u8]);
    if all_i32(c) && c.len() >= 3 {
        Some((i32s_of(c)[0], i32s_of(c)[1], i32s_of(c)[2]))
    } else {
        None
    }
}

/// The pieces of a line that `~` parts.
pub open spec fn corners_of(line: Seq<u8>) -> Seq<Seq<u8>> {
    split(line, seq![126u8])
}

/// Every piece of the line writes a corner.
pub open spec fn brick_accepts(line: Seq<u8>) -> bool {
    forall|i: int| 0 <= i < corners_of(line).len() ==> corner_of(#[trigger] corners_of(line)[i]) is Some
}

/// The greater of two numbers.
pub open spec fn larger(a: int, b: int) -> int {
    if a >= b {
        a
    } else {
        b
    }
}

/// One more than the greatest `x` and `y` of the second corners of the
/// first `k` bricks, and zero at least.
pub open spec fn bound_upto(ls: Seq<Seq<u8>>, k: int) -> (int, int)
    decreases k,
{
    if k <= 0 {
        (0, 0)
    } else {
        let c = corner_of(corners_of(ls[k - 1])[1])->0;
        let b = bound_upto(ls, k - 1);
        (larger(b.0, c.0 + 1), larger(b.1, c.1 + 1))
    }
}

/// Every line writes a brick with two corners at least, of which the
/// second has room for one more in `x` and `y`.
pub open spec fn accepts(text: Seq<u8>) -> bool {
    forall|i: int|
        0 <= i < lines(text).len() ==> {
            let line = #[trigger] lines(text)[i];
            &&& brick_accepts(line)
            &&& corners_of(line).len() >= 2
            &&& (corner_of(corners_of(line)[1])->0).0 < i32::MAX
            &&& (corner_of(corners_of(line)[1])->0).1 < i32::MAX
        }
}

/// Reads a corner.
pub fn read_corner(piece: &[u8]) -> (r: Option<(i32, i32, i32)>)
    ensures
        r == corner_of(piece@),
{
    let comma: [u8; 1] = [44];
    assert(comma@ =~= seq![44u8]);
    let parts = split_bytes(piece, comma.as_slice());
    match parse_all_i32(&parts) {
        Some(v) => {
            if v.len() >= 3 {
                Some((v[0], v[1], v[2]))
            } else {
                None
            }
        },
        None => None,
    }
}

impl Brick {
    /// This brick is what the line says: one corner for each piece.
    pub open spec fn is_parse_of(&self, line: Seq<u8>) -> bool {
        &&& self.bounds@.len() == corners_of(line).len()
        &&& forall|i: int|
            0 <= i < self.bounds@.len() ==> Some(#[trigger] self.bounds@[i]) == corner_of(
                corners_of(line)[i],
            )
    }

    /// Reads a brick from the bytes of its line.
    pub fn read(line: &[u8]) -> (r: Option<Brick>)
        ensures
            match r {
                Some(b) => brick_accepts(line@) && b.is_parse_of(line@),
                None => !brick_accepts(line@),
            },
    {
        let tilde: [u8; 1] = [126];
        assert(tilde@ =~= seq![126u8]);
        let pieces = split_bytes(line, tilde.as_slice());
        let ghost p = corners_of(line@);
        let mut bounds: Vec<(i32, i32, i32)> = Vec::new();
        let mut i: usize = 0;
        while i < pieces.len()
            invariant
                i <= pieces@.len(),
                rows_of(pieces@) == p,
                p == corners_of(line@),
                bounds@.len() == i,
                forall|k: int| 0 <= k < i ==> Some(#[trigger] bounds@[k]) == corner_of(p[k]),
            decreases pieces@.len() - i,
        {
            assert(pieces@[i as int]@ == p[i as int]);
            assert(rows_of(pieces@).len() == pieces@.len());
            match read_corner(pieces[i].as_slice()) {
                Some(c) => {
                    bounds.push(c);
                },
                None => {
                    return None;
                },
            }
            i += 1;
        }
        proof {
            assert(rows_of(pieces@).len() == pieces@.len());
            assert forall|k: int| 0 <= k < p.len() implies corner_of(#[trigger] p[k]) is Some by {
                assert(Some(bounds@[k]) == corner_of(p[k]));
            }
        }
        Some(Brick { bounds })
    }

    /// Reads a brick: `1,0,1~1,2,1`.
    pub fn from_str(s: &str) -> (r: Result<Brick, ParseError>)
        ensures
            match r {
                Ok(b) => ascii_bytes(s@) is Some && brick_accepts(ascii_bytes(s@)->0)
                    && b.is_parse_of(ascii_bytes(s@)->0),
                Err(_) => ascii_bytes(s@) is None || !brick_accepts(ascii_bytes(s@)->0),
            },
    {
        match to_ascii(s) {
            Some(b) => match Brick::read(b.as_slice()) {
                Some(b) => Ok(b),
                None => Err(ParseError {  }),
            },
            None => Err(ParseError {  }),
        }
    }
}

impl Input {
    /// This value is what the text says: one brick for each line, and the
    /// bound of them all.
    pub open spec fn is_parse_of(&self, text: Seq<u8>) -> bool {
        &&& self.bricks@.len() == lines(text).len()
        &&& forall|i: int|
            0 <= i < lines(text).len() ==> (#[trigger] self.bricks@[i]).is_parse_of(lines(text)[i])
        &&& (self.bound.0 as int, self.bound.1 as int) == bound_upto(
            lines(text),
            lines(text).len() as int,
        )
    }

    /// Reads the bricks. A text is accepted if it is ASCII and each line
    /// writes a brick with two corners.
    pub fn from_str(s: &str) -> (r: Result<Input, ParseError>)
        ensures
            match r {
                Ok(v) => ascii_bytes(s@) is Some && accepts(ascii_bytes(s@)->0) && v.is_parse_of(
                    ascii_bytes(s@)->0,
                ),
                Err(_) => ascii_bytes(s@) is None || !accepts(ascii_bytes(s@)->0),
            },
    {
        let bytes = match to_ascii(s) {
            Some(b) => b,
            None => { return Err(ParseError {  }); },
        };
        let ghost text = bytes@;
        let ls = split_lines(bytes.as_slice());
        let ghost rows = lines(text);
        let mut bricks: Vec<Brick> = Vec::new();
        let mut bound: (i32, i32) = (0, 0);
        let mut i: usize = 0;
        while i < ls.len()
            invariant
                i <= ls@.len(),
                rows_of(ls@) == rows,
                rows == lines(text),
                ascii_bytes(s@) == Some(text),
                bricks@.len() == i,
                (bound.0 as int, bound.1 as int) == bound_upto(rows, i as int),
                forall|k: int|
                    0 <= k < i ==> {
                        let line = #[trigger] rows[k];
                        &&& brick_accepts(line)
                        &&& corners_of(line).len() >= 2
                        &&& (corner_of(corners_of(line)[1])->0).0 < i32::MAX
                        &&& (corner_of(corners_of(line)[1])->0).1 < i32::MAX
                    },
                forall|k: int| 0 <= k < i ==> (#[trigger] bricks@[k]).is_parse_of(rows[k]),
            decreases ls@.len() - i,
        {
            assert(ls@[i as int]@ == rows[i as int]);
            assert(rows_of(ls@).len() == ls@.len());
            let ghost line = rows[i as int];
            let b = match Brick::read(ls[i].as_slice()) {
                Some(b) => b,
                None => {
                    assert(!brick_accepts(line));
                    return Err(ParseError {  });
                },
            };
            if b.bounds.len() < 2 {
                return Err(ParseError {  });
            }
            let top = b.bounds[1];
            assert(Some(top) == corner_of(corners_of(line)[1]));
            if top.0 == i32::MAX || top.1 == i32::MAX {
                return Err(ParseError {  });
            }
            bound = (
                if bound.0 >= top.0 + 1 { bound.0 } else { top.0 + 1 },
                if bound.1 >= top.1 + 1 { bound.1 } else { top.1 + 1 },
            );
            bricks.push(b);
            i += 1;
        }
        assert(rows_of(ls@).len() == ls@.len());
        Ok(Input { bricks, bound })
    }
}

// ----------------------------------------------------------------------
// Falling
// ----------------------------------------------------------------------

/// A brick as a box: the least and the greatest of its coordinates.
#[derive(Debug, PartialEq, Eq, Clone, Copy)]
pub struct Cuboid {
    pub x0: i32,
    pub y0: i32,
    pub z0: i32,
    pub x1: i32,
    pub y1: i32,
    pub z1: i32,
}

/// The box of a brick: from its first corner to its second.
pub open spec fn cuboid_of(b: Brick) -> Cuboid {
    Cuboid {
        x0: b.bounds@[0].0,
        y0: b.bounds@[0].1,
        z0: b.bounds@[0].2,
        x1: b.bounds@[1].0,
        y1: b.bounds@[1].1,
        z1: b.bounds@[1].2,
    }
}

/// A list with the box put behind the last box that starts no higher.
pub open spec fn put_in(sorted: Seq<Cuboid>, c: Cuboid) -> Seq<Cuboid>
    decreases sorted.len(),
{
    if sorted.len() == 0 || sorted.last().z0 <= c.z0 {
        sorted.push(c)
    } else {
        put_in(sorted.drop_last(), c).push(sorted.last())
    }
}

/// The boxes of the first `k` bricks in the order in which they fall: the
/// lowest first, and of bricks that start at one height the one that comes
/// first in the text.
pub open spec fn falling_order(bricks: Seq<Brick>, k: int) -> Seq<Cuboid>
    decreases k,
{
    if k <= 0 {
        Seq::empty()
    } else {
        put_in(falling_order(bricks, k - 1), cuboid_of(bricks[k - 1]))
    }
}

/// The box stands over the column at `x` and `y`.
pub open spec fn covers(c: Cuboid, x: int, y: int) -> bool {
    c.x0 <= x <= c.x1 && c.y0 <= y <= c.y1
}

/// The height of a box.
pub open spec fn height(c: Cuboid) -> int {
    c.z1 - c.z0 + 1
}

/// How high the column at `x` and `y` is filled once the first `k` boxes
/// have come to rest; `rests` says at what height each box rests.
pub open spec fn top(bs: Seq<Cuboid>, rests: Seq<int>, k: int, x: int, y: int) -> int
    decreases k,
{
    if k <= 0 {
        0
    } else if covers(bs[k - 1], x, y) {
        rests[k - 1] + height(bs[k - 1])
    } else {
        top(bs, rests, k - 1, x, y)
    }
}

/// The last of the first `k` boxes that stands over the column, or -1 for
/// the ground.
pub open spec fn owner(bs: Seq<Cuboid>, k: int, x: int, y: int) -> int
    decreases k,
{
    if k <= 0 {
        -1
    } else if covers(bs[k - 1], x, y) {
        k - 1
    } else {
        owner(bs, k - 1, x, y)
    }
}

/// The box `k` comes to rest at the height `h`: the highest of the columns
/// under it is filled that high.
pub open spec fn is_peak(bs: Seq<Cuboid>, rests: Seq<int>, k: int, h: int) -> bool {
    &&& forall|x: int, y: int| covers(bs[k], x, y) ==> #[trigger] top(bs, rests, k, x, y) <= h
    &&& exists|x: int, y: int| covers(bs[k], x, y) && #[trigger] top(bs, rests, k, x, y) == h
}

/// The heights at which the first `k` boxes come to rest.
pub open spec fn rests_upto(bs: Seq<Cuboid>, k: int) -> Seq<int>
    decreases k,
{
    if k <= 0 {
        Seq::empty()
    } else {
        let r = rests_upto(bs, k - 1);
        r.push(choose|h: int| #[trigger] is_peak(bs, r, k - 1, h))
    }
}

/// The box `j` supports the box `k`: it is the last box in a column under
/// `k` that is filled as high as `k` rests.
pub open spec fn supports(bs: Seq<Cuboid>, rests: Seq<int>, k: int, j: int) -> bool {
    exists|x: int, y: int|
        covers(bs[k], x, y) && top(bs, rests, k, x, y) == rests[k] && rests[k] > 0
            && #[trigger] owner(bs, k, x, y) == j
}

/// Every box lies within the bound, has its corners in order, and rests
/// with its top below the limit of 32 bits.
pub open spec fn boxes_fit(bs: Seq<Cuboid>, bound: (i32, i32)) -> bool {
    forall|k: int|
        0 <= k < bs.len() ==> {
            let c = #[trigger] bs[k];
            &&& 0 <= c.x0 <= c.x1 < bound.0
            &&& 0 <= c.y0 <= c.y1 < bound.1
            &&& c.z0 <= c.z1
            &&& rests_upto(bs, bs.len() as int)[k] + height(c) <= i32::MAX
        }
}

/// Two peaks of one box are equal.
pub proof fn lemma_peak_unique(bs: Seq<Cuboid>, rests: Seq<int>, k: int, a: int, b: int)
    requires
        is_peak(bs, rests, k, a),
        is_peak(bs, rests, k, b),
    ensures
        a == b,
{
    let (x, y) = choose|x: int, y: int| covers(bs[k], x, y) && #[trigger] top(bs, rests, k, x, y) == a;
    let (u, v) = choose|u: int, v: int| covers(bs[k], u, v) && #[trigger] top(bs, rests, k, u, v) == b;
    assert(top(bs, rests, k, x, y) <= b);
    assert(top(bs, rests, k, u, v) <= a);
}

/// The columns are filled alike for lists of rests that agree on the boxes
/// concerned.
pub proof fn lemma_top_prefix(bs: Seq<Cuboid>, r1: Seq<int>, r2: Seq<int>, k: int, x: int, y: int)
    requires
        0 <= k <= r1.len(),
        k <= r2.len(),
        forall|j: int| 0 <= j < k ==> r1[j] == r2[j],
    ensures
        top(bs, r1, k, x, y) == top(bs, r2, k, x, y),
    decreases k,
{
    if k > 0 {
        lemma_top_prefix(bs, r1, r2, k - 1, x, y);
    }
}

/// The rests of the first boxes do not change when more boxes fall.
pub proof fn lemma_rests_prefix(bs: Seq<Cuboid>, k: int, n: int)
    requires
        0 <= k <= n,
    ensures
        rests_upto(bs, k).len() == k,
        rests_upto(bs, n).len() == n,
        forall|j: int| 0 <= j < k ==> rests_upto(bs, k)[j] == rests_upto(bs, n)[j],
    decreases n,
{
    if n > 0 {
        if k < n {
            lemma_rests_prefix(bs, k, n - 1);
        } else {
            lemma_rests_prefix(bs, k - 1, n - 1);
        }
    }
}

/// No column is filled below the ground, where boxes rest at the ground or
/// above it and have their corners in order.
pub proof fn lemma_top_nonnegative(bs: Seq<Cuboid>, rests: Seq<int>, k: int, x: int, y: int)
    requires
        0 <= k <= rests.len(),
        k <= bs.len(),
        forall|j: int| 0 <= j < k ==> #[trigger] rests[j] >= 0,
        forall|j: int| 0 <= j < k ==> (#[trigger] bs[j]).z0 <= bs[j].z1,
    ensures
        top(bs, rests, k, x, y) >= 0,
        top(bs, rests, k, x, y) > 0 <==> owner(bs, k, x, y) >= 0,
        owner(bs, k, x, y) < k,
        -1 <= owner(bs, k, x, y),
    decreases k,
{
    if k > 0 {
        lemma_top_nonnegative(bs, rests, k - 1, x, y);
    }
}

/// The column `(x, y)` has been looked at when a scan of the columns under
/// the box, row by row, stands at `(cx, cy)`.
pub open spec fn scanned(c: Cuboid, cx: int, cy: int, x: int, y: int) -> bool {
    covers(c, x, y) && (x < cx || (x == cx && y < cy))
}

/// What lists of numbers hold.
pub open spec fn lists_of(v: Seq<Vec<usize>>) -> Seq<Seq<usize>> {
    Seq::new(v.len(), |i: int| v[i]@)
}

/// The lists say which boxes support which: the list `k` of `below` holds
/// the boxes that support the box `k`, the list `j` of `above` holds the
/// boxes that the box `j` supports, and no list names a box twice.
pub open spec fn is_support_of(
    above: Seq<Seq<usize>>,
    below: Seq<Seq<usize>>,
    bs: Seq<Cuboid>,
    rests: Seq<int>,
) -> bool {
    &&& above.len() == bs.len()
    &&& below.len() == bs.len()
    &&& forall|k: int, j: int|
        0 <= k < bs.len() && 0 <= j < bs.len() ==> (#[trigger] below[k].contains(j as usize)
            <==> supports(bs, rests, k, j))
    &&& forall|k: int, m: int|
        0 <= k < bs.len() && 0 <= m < below[k].len() ==> (#[trigger] below[k][m]) < k
    &&& forall|k: int| 0 <= k < bs.len() ==> (#[trigger] below[k]).no_duplicates()
    &&& forall|k: int| 0 <= k < bs.len() ==> (#[trigger] above[k]).no_duplicates()
    &&& forall|k: int, j: int|
        0 <= k < bs.len() && 0 <= j < bs.len() ==> (#[trigger] above[j].contains(k as usize)
            <==> below[k].contains(j as usize))
    &&& forall|k: int, m: int|
        0 <= k < bs.len() && 0 <= m < above[k].len() ==> (#[trigger] above[k][m]) < bs.len()
}

impl Input {
    /// Every brick has two corners.
    pub open spec fn has_corners(&self) -> bool {
        forall|i: int| 0 <= i < self.bricks@.len() ==> (#[trigger] self.bricks@[i]).bounds@.len() >= 2
    }

    /// The boxes of the bricks in the order in which they fall.
    pub open spec fn boxes(&self) -> Seq<Cuboid> {
        falling_order(self.bricks@, self.bricks@.len() as int)
    }

    /// The heights at which the boxes come to rest.
    pub open spec fn rests(&self) -> Seq<int> {
        rests_upto(self.boxes(), self.boxes().len() as int)
    }

    /// The bricks can fall: each has two corners, lies within the bound
    /// with its corners in order, and comes to rest within 32 bits.
    pub open spec fn is_valid(&self) -> bool {
        &&& self.has_corners()
        &&& boxes_fit(self.boxes(), self.bound)
    }
}

/// Putting in behind the boxes that start no higher is putting in at the
/// place before which nothing starts higher and from which on all do.
proof fn lemma_put_in(sorted: Seq<Cuboid>, c: Cuboid, p: int)
    requires
        0 <= p <= sorted.len(),
        p > 0 ==> sorted[p - 1].z0 <= c.z0,
        forall|j: int| p <= j < sorted.len() ==> sorted[j].z0 > c.z0,
    ensures
        put_in(sorted, c) == sorted.insert(p, c),
    decreases sorted.len(),
{
    if p == sorted.len() {
        assert(sorted.insert(p, c) =~= sorted.push(c));
    } else {
        lemma_put_in(sorted.drop_last(), c, p);
        assert(sorted.drop_last().insert(p, c).push(sorted.last()) =~= sorted.insert(p, c));
    }
}

/// The boxes of the bricks in the order in which they fall.
pub fn sort_bricks(input: &Input) -> (r: Vec<Cuboid>)
    requires
        input.has_corners(),
    ensures
        r@ == input.boxes(),
{
    let mut r: Vec<Cuboid> = Vec::new();
    let mut k: usize = 0;
    assert(r@ =~= falling_order(input.bricks@, 0));
    while k < input.bricks.len()
        invariant
            k <= input.bricks@.len(),
            input.has_corners(),
            r@ == falling_order(input.bricks@, k as int),
        decreases input.bricks@.len() - k,
    {
        let b = &input.bricks[k];
        assert(input.bricks@[k as int].bounds@.len() >= 2);
        let lo = b.bounds[0];
        let hi = b.bounds[1];
        let c = Cuboid { x0: lo.0, y0: lo.1, z0: lo.2, x1: hi.0, y1: hi.1, z1: hi.2 };
        let mut p: usize = r.len();
        while p > 0 && r[p - 1].z0 > c.z0
            invariant
                p <= r@.len(),
                forall|j: int| p <= j < r@.len() ==> r@[j].z0 > c.z0,
            decreases p,
        {
            p -= 1;
        }
        proof {
            lemma_put_in(r@, c, p as int);
        }
        r.insert(p, c);
        k += 1;
    }
    r
}

/// Whether the list holds the number.
fn holds(v: &Vec<usize>, x: usize) -> (r: bool)
    ensures
        r == v@.contains(x),
{
    let mut k: usize = 0;
    while k < v.len()
        invariant
            k <= v@.len(),
            forall|j: int| 0 <= j < k ==> v@[j] != x,
        decreases v@.len() - k,
    {
        if v[k] == x {
            return true;
        }
        k += 1;
    }
    false
}

/// The profile says how high the columns are filled and which box is the
/// last in each, once the first `k` boxes have come to rest.
pub open spec fn profile_is(
    profile: Seq<Vec<(i32, usize)>>,
    bound: (i32, i32),
    bs: Seq<Cuboid>,
    rests: Seq<int>,
    k: int,
) -> bool {
    &&& profile.len() == bound.0
    &&& forall|x: int| 0 <= x < bound.0 ==> (#[trigger] profile[x])@.len() == bound.1
    &&& forall|x: int, y: int|
        0 <= x < bound.0 && 0 <= y < bound.1 ==> (#[trigger] profile[x]@[y]).0 == top(
            bs,
            rests,
            k,
            x,
            y,
        ) && (top(bs, rests, k, x, y) > 0 ==> profile[x]@[y].1 == owner(bs, k, x, y))
}

/// The box `j` is the last in a column under the box `k` that is filled to
/// the height `h`, which is above the ground.
pub open spec fn supports_at(bs: Seq<Cuboid>, rests: Seq<int>, k: int, h: int, j: int) -> bool {
    exists|x: int, y: int|
        covers(bs[k], x, y) && top(bs, rests, k, x, y) == h && h > 0 && #[trigger] owner(
            bs,
            k,
            x,
            y,
        ) == j
}

/// Every entry of the list is the last box of a column, looked at already,
/// that is filled to the height `h`; `wit` names such a column for each.
pub open spec fn witnessed(
    bs: Seq<Cuboid>,
    rests: Seq<int>,
    i: int,
    c: Cuboid,
    at: (int, int),
    h: int,
    below: Seq<usize>,
    wit: Seq<(int, int)>,
) -> bool {
    &&& wit.len() == below.len()
    &&& forall|m: int|
        0 <= m < below.len() ==> #[trigger] is_witness(bs, rests, i, c, at, h, wit[m], below[m])
}

/// The column `w` has been looked at, is filled to the height `h` above
/// the ground, and the box `b` is the last in it.
pub open spec fn is_witness(
    bs: Seq<Cuboid>,
    rests: Seq<int>,
    i: int,
    c: Cuboid,
    at: (int, int),
    h: int,
    w: (int, int),
    b: usize,
) -> bool {
    h > 0 && scanned(c, at.0, at.1, w.0, w.1) && top(bs, rests, i, w.0, w.1) == h && owner(
        bs,
        i,
        w.0,
        w.1,
    ) == b
}

/// The last box of every column, looked at already, that is filled to the
/// height `h` is in the list.
pub open spec fn collected(
    bs: Seq<Cuboid>,
    rests: Seq<int>,
    i: int,
    c: Cuboid,
    at: (int, int),
    h: int,
    below: Seq<usize>,
) -> bool {
    forall|u: int, v: int|
        scanned(c, at.0, at.1, u, v) && h > 0 && top(bs, rests, i, u, v) == h ==> 0 <= owner(
            bs,
            i,
            u,
            v,
        ) && exists|m: int| 0 <= m < below.len() && #[trigger] below[m] == owner(bs, i, u, v)
}

/// No column looked at already is filled higher than `h`.
pub open spec fn bounded(bs: Seq<Cuboid>, rests: Seq<int>, i: int, c: Cuboid, at: (int, int), h: int)
    -> bool {
    forall|u: int, v: int| scanned(c, at.0, at.1, u, v) ==> #[trigger] top(bs, rests, i, u, v) <= h
}

/// Looks at the columns under the box `i`: finds how high the highest is
/// filled, and which boxes are the last in the columns filled that high.
fn scan_under(
    profile: &Vec<Vec<(i32, usize)>>,
    c: Cuboid,
    bound: (i32, i32),
    Ghost(bs): Ghost<Seq<Cuboid>>,
    Ghost(rests): Ghost<Seq<int>>,
    Ghost(i): Ghost<int>,
) -> (r: (i32, Vec<usize>))
    requires
        0 <= i < bs.len() <= usize::MAX,
        i <= rests.len(),
        c == bs[i],
        0 <= c.x0 <= c.x1 < bound.0,
        0 <= c.y0 <= c.y1 < bound.1,
        profile_is(profile@, bound, bs, rests, i),
        forall|j: int| 0 <= j < i ==> #[trigger] rests[j] >= 0,
        forall|j: int| 0 <= j < i ==> (#[trigger] bs[j]).z0 <= bs[j].z1,
    ensures
        r.0 >= 0,
        is_peak(bs, rests, i, r.0 as int),
        r.1@.no_duplicates(),
        forall|m: int| 0 <= m < r.1@.len() ==> #[trigger] r.1@[m] < i,
        forall|j: int| 0 <= j < bs.len() ==> (r.1@.contains(j as usize) <==> #[trigger] supports_at(
            bs,
            rests,
            i,
            r.0 as int,
            j,
        )),
{
    let mut max_h: i32 = 0;
    let mut below: Vec<usize> = Vec::new();
    let ghost mut peak_at: (int, int) = (c.x0 as int, c.y0 as int);
    let ghost mut wit: Seq<(int, int)> = Seq::empty();
    let mut x: i32 = c.x0;
    while x <= c.x1
        invariant
            c.x0 <= x <= c.x1 + 1,
            0 <= i < bs.len() <= usize::MAX,
            i <= rests.len(),
            c == bs[i],
            0 <= c.x0 <= c.x1 < bound.0,
            0 <= c.y0 <= c.y1 < bound.1,
            profile_is(profile@, bound, bs, rests, i),
            forall|j: int| 0 <= j < i ==> #[trigger] rests[j] >= 0,
            forall|j: int| 0 <= j < i ==> (#[trigger] bs[j]).z0 <= bs[j].z1,
            max_h >= 0,
            bounded(bs, rests, i, c, (x as int, c.y0 as int), max_h as int),
            max_h > 0 ==> scanned(c, x as int, c.y0 as int, peak_at.0, peak_at.1) && top(
                bs,
                rests,
                i,
                peak_at.0,
                peak_at.1,
            ) == max_h,
            below@.no_duplicates(),
            witnessed(bs, rests, i, c, (x as int, c.y0 as int), max_h as int, below@, wit),
            collected(bs, rests, i, c, (x as int, c.y0 as int), max_h as int, below@),
        decreases c.x1 + 1 - x,
    {
        let mut y: i32 = c.y0;
        while y <= c.y1
            invariant
                c.x0 <= x <= c.x1,
                c.y0 <= y <= c.y1 + 1,
                0 <= i < bs.len() <= usize::MAX,
                i <= rests.len(),
                c == bs[i],
                0 <= c.x0 <= c.x1 < bound.0,
                0 <= c.y0 <= c.y1 < bound.1,
                profile_is(profile@, bound, bs, rests, i),
                forall|j: int| 0 <= j < i ==> #[trigger] rests[j] >= 0,
                forall|j: int| 0 <= j < i ==> (#[trigger] bs[j]).z0 <= bs[j].z1,
                max_h >= 0,
                bounded(bs, rests, i, c, (x as int, y as int), max_h as int),
                max_h > 0 ==> scanned(c, x as int, y as int, peak_at.0, peak_at.1) && top(
                    bs,
                    rests,
                    i,
                    peak_at.0,
                    peak_at.1,
                ) == max_h,
                below@.no_duplicates(),
                witnessed(bs, rests, i, c, (x as int, y as int), max_h as int, below@, wit),
                collected(bs, rests, i, c, (x as int, y as int), max_h as int, below@),
            decreases c.y1 + 1 - y,
        {
            assert(profile@[x as int]@.len() == bound.1);
            let (z, id) = profile[x as usize][y as usize];
            proof {
                lemma_top_nonnegative(bs, rests, i, x as int, y as int);
                assert(profile@[x as int]@[y as int].0 == top(bs, rests, i, x as int, y as int));
            }
            let ghost old_below = below@;
            let ghost old_wit = wit;
            let ghost old_max = max_h as int;
            if z != 0 {
                if z > max_h {
                    below.clear();
                    max_h = z;
                    proof {
                        wit = Seq::empty();
                        peak_at = (x as int, y as int);
                    }
                }
                if z >= max_h {
                    if !holds(&below, id) {
                        below.push(id);
                        proof {
                            wit = wit.push((x as int, y as int));
                            assert(below@[below@.len() - 1] == id);
                        }
                    }
                    assert(below@.contains(id));
                }
            }
            proof {
                let h = max_h as int;
                let here = (x as int, y as int);
                let next = (x as int, y + 1);
                assert forall|u: int, v: int| scanned(c, next.0, next.1, u, v) implies #[trigger] top(
                    bs,
                    rests,
                    i,
                    u,
                    v,
                ) <= h by {
                    if !(u == x && v == y) {
                        assert(scanned(c, here.0, here.1, u, v));
                    }
                }
                assert forall|m: int| 0 <= m < below@.len() implies #[trigger] is_witness(
                    bs,
                    rests,
                    i,
                    c,
                    next,
                    h,
                    wit[m],
                    below@[m],
                ) by {
                    if old_max == h && m < old_below.len() {
                        assert(wit[m] == old_wit[m]);
                        assert(below@[m] == old_below[m]);
                        assert(is_witness(bs, rests, i, c, here, old_max, old_wit[m], old_below[m]));
                    } else {
                        assert(wit[m] == here);
                        assert(below@[m] == id);
                        assert(z == h);
                        assert(id == owner(bs, i, x as int, y as int));
                    }
                }
                assert forall|u: int, v: int|
                    scanned(c, next.0, next.1, u, v) && h > 0 && top(bs, rests, i, u, v)
                        == h implies 0 <= owner(bs, i, u, v) && exists|m: int|
                    0 <= m < below@.len() && #[trigger] below@[m] == owner(bs, i, u, v) by {
                    lemma_top_nonnegative(bs, rests, i, u, v);
                    if u == x && v == y {
                        assert(z == h);
                        assert(id == owner(bs, i, u, v));
                        assert(below@.contains(id));
                    } else {
                        assert(scanned(c, here.0, here.1, u, v));
                        assert(top(bs, rests, i, u, v) <= old_max);
                        assert(old_max == h);
                        let m = choose|m: int|
                            0 <= m < old_below.len() && #[trigger] old_below[m] == owner(
                                bs,
                                i,
                                u,
                                v,
                            );
                        assert(below@[m] == old_below[m]);
                    }
                }
            }
            y += 1;
        }
        proof {
            let h = max_h as int;
            assert forall|u: int, v: int| #[trigger]
                scanned(c, x + 1, c.y0 as int, u, v) implies scanned(
                c,
                x as int,
                c.y1 + 1,
                u,
                v,
            ) by {}
            assert(bounded(bs, rests, i, c, (x + 1, c.y0 as int), h));
            assert forall|m: int| 0 <= m < below@.len() implies #[trigger] is_witness(
                bs,
                rests,
                i,
                c,
                (x + 1, c.y0 as int),
                h,
                wit[m],
                below@[m],
            ) by {
                assert(is_witness(bs, rests, i, c, (x as int, c.y1 + 1), h, wit[m], below@[m]));
                assert(scanned(c, x as int, c.y1 + 1, wit[m].0, wit[m].1));
            }
            assert(witnessed(bs, rests, i, c, (x + 1, c.y0 as int), h, below@, wit));
            assert(collected(bs, rests, i, c, (x + 1, c.y0 as int), h, below@));
        }
        x += 1;
    }
    proof {
        let h = max_h as int;
        assert forall|u: int, v: int| covers(c, u, v) implies #[trigger] scanned(
            c,
            c.x1 + 1,
            c.y0 as int,
            u,
            v,
        ) by {}
        if max_h == 0 {
            lemma_top_nonnegative(bs, rests, i, c.x0 as int, c.y0 as int);
            assert(covers(c, c.x0 as int, c.y0 as int));
            assert(scanned(c, c.x1 + 1, c.y0 as int, c.x0 as int, c.y0 as int));
            assert(top(bs, rests, i, c.x0 as int, c.y0 as int) == 0);
        } else {
            assert(covers(c, peak_at.0, peak_at.1));
        }
        assert forall|u: int, v: int| covers(bs[i], u, v) implies #[trigger] top(
            bs,
            rests,
            i,
            u,
            v,
        ) <= h by {
            assert(scanned(c, c.x1 + 1, c.y0 as int, u, v));
        }
        assert forall|m: int| 0 <= m < below@.len() implies #[trigger] below@[m] < i by {
            assert(is_witness(bs, rests, i, c, (c.x1 + 1, c.y0 as int), h, wit[m], below@[m]));
            lemma_top_nonnegative(bs, rests, i, wit[m].0, wit[m].1);
        }
        assert forall|j: int| 0 <= j < bs.len() implies (below@.contains(j as usize)
            <==> #[trigger] supports_at(bs, rests, i, h, j)) by {
            if below@.contains(j as usize) {
                let m = choose|m: int| 0 <= m < below@.len() && below@[m] == j as usize;
                let w = wit[m];
                assert(is_witness(bs, rests, i, c, (c.x1 + 1, c.y0 as int), h, wit[m], below@[m]));
                assert(scanned(c, c.x1 + 1, c.y0 as int, w.0, w.1));
                assert(owner(bs, i, w.0, w.1) == below@[m]);
                assert(owner(bs, i, w.0, w.1) == j);
                assert(covers(bs[i], w.0, w.1));
                assert(top(bs, rests, i, w.0, w.1) == h && h > 0);
                assert(supports_at(bs, rests, i, h, j));
            }
            if supports_at(bs, rests, i, h, j) {
                let (u, v) = choose|u: int, v: int|
                    covers(bs[i], u, v) && top(bs, rests, i, u, v) == h && h > 0
                        && #[trigger] owner(bs, i, u, v) == j;
                assert(scanned(c, c.x1 + 1, c.y0 as int, u, v));
                let m = choose|m: int|
                    0 <= m < below@.len() && #[trigger] below@[m] == owner(bs, i, u, v);
                assert(below@[m] == j as usize);
            }
        }
    }
    (max_h, below)
}

/// Fills the columns under a box to the height `value.0` and makes the box
/// `value.1` the last in them.
fn cover_columns(profile: &mut Vec<Vec<(i32, usize)>>, c: Cuboid, bound: (i32, i32), value: (i32, usize))
    requires
        0 <= c.x0 <= c.x1 < bound.0,
        0 <= c.y0 <= c.y1 < bound.1,
        old(profile)@.len() == bound.0,
        forall|x: int| 0 <= x < bound.0 ==> (#[trigger] old(profile)@[x])@.len() == bound.1,
    ensures
        final(profile)@.len() == bound.0,
        forall|x: int| 0 <= x < bound.0 ==> (#[trigger] final(profile)@[x])@.len() == bound.1,
        forall|x: int, y: int|
            0 <= x < bound.0 && 0 <= y < bound.1 ==> (#[trigger] final(profile)@[x]@[y]) == (if covers(
                c,
                x,
                y,
            ) {
                value
            } else {
                old(profile)@[x]@[y]
            }),
{
    let ghost before = profile@;
    let mut x: i32 = c.x0;
    while x <= c.x1
        invariant
            c.x0 <= x <= c.x1 + 1,
            0 <= c.x0 <= c.x1 < bound.0,
            0 <= c.y0 <= c.y1 < bound.1,
            before.len() == bound.0,
            forall|u: int| 0 <= u < bound.0 ==> (#[trigger] before[u])@.len() == bound.1,
            profile@.len() == bound.0,
            forall|u: int| 0 <= u < bound.0 ==> (#[trigger] profile@[u])@.len() == bound.1,
            forall|u: int, v: int|
                0 <= u < bound.0 && 0 <= v < bound.1 ==> (#[trigger] profile@[u]@[v]) == (
                if scanned(c, x as int, c.y0 as int, u, v) {
                    value
                } else {
                    before[u]@[v]
                }),
        decreases c.x1 + 1 - x,
    {
        let mut y: i32 = c.y0;
        while y <= c.y1
            invariant
                c.x0 <= x <= c.x1,
                c.y0 <= y <= c.y1 + 1,
                0 <= c.x0 <= c.x1 < bound.0,
                0 <= c.y0 <= c.y1 < bound.1,
                before.len() == bound.0,
                forall|u: int| 0 <= u < bound.0 ==> (#[trigger] before[u])@.len() == bound.1,
                profile@.len() == bound.0,
                forall|u: int| 0 <= u < bound.0 ==> (#[trigger] profile@[u])@.len() == bound.1,
                forall|u: int, v: int|
                    0 <= u < bound.0 && 0 <= v < bound.1 ==> (#[trigger] profile@[u]@[v]) == (
                    if scanned(c, x as int, y as int, u, v) {
                        value
                    } else {
                        before[u]@[v]
                    }),
            decreases c.y1 + 1 - y,
        {
            let ghost prior = profile@;
            assert(profile@[x as int]@.len() == bound.1);
            profile[x as usize][y as usize] = value;
            proof {
                assert forall|u: int| 0 <= u < bound.0 implies (#[trigger] profile@[u])@.len()
                    == bound.1 by {
                    assert(prior[u]@.len() == bound.1);
                }
                assert forall|u: int, v: int|
                    0 <= u < bound.0 && 0 <= v < bound.1 implies (#[trigger] profile@[u]@[v]) == (
                if scanned(c, x as int, y + 1, u, v) {
                    value
                } else {
                    before[u]@[v]
                }) by {
                    assert(prior[u]@[v] == (if scanned(c, x as int, y as int, u, v) {
                        value
                    } else {
                        before[u]@[v]
                    }));
                }
            }
            y += 1;
        }
        x += 1;
    }
}

/// Lets a box fall on the boxes that lie already: finds where it rests and
/// what supports it, and fills the columns under it.
fn settle(
    profile: &mut Vec<Vec<(i32, usize)>>,
    c: Cuboid,
    bound: (i32, i32),
    i: usize,
    Ghost(bs): Ghost<Seq<Cuboid>>,
    Ghost(full): Ghost<Seq<int>>,
) -> (below: Vec<usize>)
    requires
        i < bs.len() <= usize::MAX,
        full == rests_upto(bs, bs.len() as int),
        c == bs[i as int],
        boxes_fit(bs, bound),
        profile_is(old(profile)@, bound, bs, full, i as int),
        forall|j: int| 0 <= j < i ==> #[trigger] full[j] >= 0,
    ensures
        profile_is(final(profile)@, bound, bs, full, i + 1),
        full[i as int] >= 0,
        below@.no_duplicates(),
        forall|m: int| 0 <= m < below@.len() ==> #[trigger] below@[m] < i,
        forall|j: int|
            0 <= j < bs.len() ==> (below@.contains(j as usize) <==> #[trigger] supports(
                bs,
                full,
                i as int,
                j,
            )),
{
    let ghost n = bs.len() as int;
    proof {
        lemma_rests_prefix(bs, i as int, n);
        lemma_rests_prefix(bs, i + 1, n);
        assert(bs[i as int].z0 <= bs[i as int].z1);
    }
    let (max_h, below) = scan_under(profile, c, bound, Ghost(bs), Ghost(full), Ghost(i as int));
    proof {
        let before = rests_upto(bs, i as int);
        let h = max_h as int;
        assert(is_peak(bs, before, i as int, h)) by {
            assert forall|x: int, y: int| covers(bs[i as int], x, y) implies #[trigger] top(
                bs,
                before,
                i as int,
                x,
                y,
            ) <= h by {
                lemma_top_prefix(bs, before, full, i as int, x, y);
                assert(top(bs, full, i as int, x, y) <= h);
            }
            let (x, y) = choose|x: int, y: int|
                covers(bs[i as int], x, y) && #[trigger] top(bs, full, i as int, x, y) == h;
            lemma_top_prefix(bs, before, full, i as int, x, y);
            assert(top(bs, before, i as int, x, y) == h);
        }
        let chosen = choose|h: int| #[trigger] is_peak(bs, before, i as int, h);
        lemma_peak_unique(bs, before, i as int, chosen, h);
        assert(rests_upto(bs, i + 1)[i as int] == chosen);
        assert(full[i as int] == h);
        assert(full[i as int] + height(bs[i as int]) <= i32::MAX);
        assert forall|j: int| 0 <= j < bs.len() implies (supports_at(bs, full, i as int, h, j)
            <==> #[trigger] supports(bs, full, i as int, j)) by {}
    }
    let new_top: i32 = max_h + (c.z1 - c.z0 + 1);
    let ghost prior = profile@;
    cover_columns(profile, c, bound, (new_top, i));
    proof {
        assert forall|x: int, y: int| 0 <= x < bound.0 && 0 <= y < bound.1 implies (
        #[trigger] profile@[x]@[y]).0 == top(bs, full, i + 1, x, y) && (top(bs, full, i + 1, x, y)
            > 0 ==> profile@[x]@[y].1 == owner(bs, i + 1, x, y)) by {
            assert(prior[x]@[y].0 == top(bs, full, i as int, x, y));
        }
    }
    below
}

/// Where the bricks come to rest: for every brick, in the order in which
/// they fall, the bricks that it supports and the bricks that support it.
pub fn compute_fall(input: &Input) -> (r: (Vec<Vec<usize>>, Vec<Vec<usize>>))
    requires
        input.is_valid(),
    ensures
        is_support_of(lists_of(r.0@), lists_of(r.1@), input.boxes(), input.rests()),
{
    let sorted = sort_bricks(input);
    let ghost bs = sorted@;
    let ghost full = rests_upto(bs, bs.len() as int);
    let n = sorted.len();
    let bound = input.bound;
    if n == 0 {
        let none: Vec<Vec<usize>> = Vec::new();
        let nothing: Vec<Vec<usize>> = Vec::new();
        return (none, nothing);
    }
    proof {
        assert(0 <= bs[0].x0 <= bs[0].x1 < bound.0);
        assert(0 <= bs[0].y0 <= bs[0].y1 < bound.1);
    }
    let mut profile: Vec<Vec<(i32, usize)>> = Vec::new();
    let mut x: i32 = 0;
    while x < bound.0
        invariant
            0 <= x <= bound.0,
            0 < bound.1,
            profile@.len() == x,
            forall|u: int| 0 <= u < x ==> (#[trigger] profile@[u])@.len() == bound.1,
            forall|u: int, v: int|
                0 <= u < x && 0 <= v < bound.1 ==> (#[trigger] profile@[u]@[v]).0 == 0,
        decreases bound.0 - x,
    {
        let mut row: Vec<(i32, usize)> = Vec::new();
        let mut y: i32 = 0;
        while y < bound.1
            invariant
                0 <= y <= bound.1,
                row@.len() == y,
                forall|v: int| 0 <= v < y ==> (#[trigger] row@[v]).0 == 0,
            decreases bound.1 - y,
        {
            row.push((0, usize::MAX));
            y += 1;
        }
        profile.push(row);
        x += 1;
    }
    let mut below: Vec<Vec<usize>> = Vec::new();
    let mut above: Vec<Vec<usize>> = Vec::new();
    let mut k: usize = 0;
    while k < n
        invariant
            k <= n,
            above@.len() == k,
            forall|j: int| 0 <= j < k ==> (#[trigger] above@[j])@.len() == 0,
        decreases n - k,
    {
        above.push(Vec::new());
        k += 1;
    }
    let mut i: usize = 0;
    while i < n
        invariant
            i <= n,
            n == bs.len(),
            bs == sorted@,
            bs == input.boxes(),
            full == rests_upto(bs, bs.len() as int),
            bound == input.bound,
            boxes_fit(bs, bound),
            profile_is(profile@, bound, bs, full, i as int),
            forall|j: int| 0 <= j < i ==> #[trigger] full[j] >= 0,
            below@.len() == i,
            above@.len() == n,
            forall|k: int, j: int|
                0 <= k < i && 0 <= j < n ==> (#[trigger] below@[k]@.contains(j as usize)
                    <==> supports(bs, full, k, j)),
            forall|k: int, m: int|
                0 <= k < i && 0 <= m < below@[k]@.len() ==> (#[trigger] below@[k]@[m]) < k,
            forall|k: int| 0 <= k < i ==> (#[trigger] below@[k])@.no_duplicates(),
            forall|j: int| 0 <= j < n ==> (#[trigger] above@[j])@.no_duplicates(),
            forall|j: int, m: int|
                0 <= j < n && 0 <= m < above@[j]@.len() ==> (#[trigger] above@[j]@[m]) < i,
            forall|k: int, j: int|
                0 <= k < i && 0 <= j < n ==> (#[trigger] above@[j]@.contains(k as usize)
                    <==> below@[k]@.contains(j as usize)),
        decreases n - i,
    {
        let c = sorted[i];
        let under = settle(&mut profile, c, bound, i, Ghost(bs), Ghost(full));
        let mut m: usize = 0;
        let ghost above0 = above@;
        while m < under.len()
            invariant
                m <= under@.len(),
                i < n,
                above@.len() == n,
                above0.len() == n,
                under@.no_duplicates(),
                forall|q: int| 0 <= q < under@.len() ==> #[trigger] under@[q] < i,
                forall|j: int, q: int|
                    0 <= j < n && 0 <= q < above0[j]@.len() ==> (#[trigger] above0[j]@[q]) < i,
                forall|j: int| 0 <= j < n ==> (#[trigger] above0[j])@.no_duplicates(),
                forall|j: int|
                    0 <= j < n ==> (#[trigger] above@[j])@ == if under@.subrange(
                        0,
                        m as int,
                    ).contains(j as usize) {
                        above0[j]@.push(i)
                    } else {
                        above0[j]@
                    },
            decreases under@.len() - m,
        {
            let b = under[m];
            let ghost prior = above@;
            let mut taken: Vec<usize> = Vec::new();
            std::mem::swap(&mut taken, &mut above[b]);
            taken.push(i);
            std::mem::swap(&mut taken, &mut above[b]);
            proof {
                let done = under@.subrange(0, m as int);
                let more = under@.subrange(0, m + 1);
                assert(more =~= done.push(b));
                assert(!done.contains(b)) by {
                    if done.contains(b) {
                        let q = choose|q: int| 0 <= q < done.len() && done[q] == b;
                        assert(under@[q] == under@[m as int]);
                    }
                }
                assert forall|j: int| 0 <= j < n implies (#[trigger] above@[j])@ == if more.contains(
                    j as usize,
                ) {
                    above0[j]@.push(i)
                } else {
                    above0[j]@
                } by {
                    if j == b {
                        assert(more[m as int] == b);
                        assert(prior[j]@ == above0[j]@);
                    } else {
                        assert(above@[j] == prior[j]);
                        if done.contains(j as usize) {
                            let q = choose|q: int| 0 <= q < done.len() && done[q] == j as usize;
                            assert(more[q] == j as usize);
                        }
                        if more.contains(j as usize) {
                            let q = choose|q: int| 0 <= q < more.len() && more[q] == j as usize;
                            assert(done[q] == j as usize);
                        }
                    }
                }
            }
            m += 1;
        }
        proof {
            assert(under@.subrange(0, m as int) =~= under@);
        }
        let ghost below0 = below@;
        below.push(under);
        proof {
            assert forall|k: int, j: int| 0 <= k < i + 1 && 0 <= j < n implies (
            #[trigger] below@[k]@.contains(j as usize) <==> supports(bs, full, k, j)) by {
                if k < i {
                    assert(below@[k] == below0[k]);
                }
            }
            assert forall|k: int, q: int| 0 <= k < i + 1 && 0 <= q < below@[k]@.len() implies (
            #[trigger] below@[k]@[q]) < k by {
                if k < i {
                    assert(below@[k] == below0[k]);
                }
            }
            assert forall|k: int| 0 <= k < i + 1 implies (#[trigger] below@[k])@.no_duplicates() by {
                if k < i {
                    assert(below@[k] == below0[k]);
                }
            }
            assert forall|j: int| 0 <= j < n implies (#[trigger] above@[j])@.no_duplicates() by {
                assert(above0[j]@.no_duplicates());
                if under@.contains(j as usize) {
                    assert forall|a: int, b: int|
                        0 <= a < above@[j]@.len() && 0 <= b < above@[j]@.len() && a
                            != b implies above@[j]@[a] != above@[j]@[b] by {
                        if a < above0[j]@.len() {
                            assert(above0[j]@[a] < i);
                        }
                        if b < above0[j]@.len() {
                            assert(above0[j]@[b] < i);
                        }
                    }
                }
            }
            assert forall|j: int, q: int| 0 <= j < n && 0 <= q < above@[j]@.len() implies (
            #[trigger] above@[j]@[q]) < i + 1 by {
                if q < above0[j]@.len() {
                    assert(above0[j]@[q] < i);
                }
            }
            assert forall|k: int, j: int| 0 <= k < i + 1 && 0 <= j < n implies (
            #[trigger] above@[j]@.contains(k as usize) <==> below@[k]@.contains(j as usize)) by {
                if k < i {
                    assert(below@[k] == below0[k]);
                    assert(above0[j]@.contains(k as usize) <==> below0[k]@.contains(j as usize));
                    if under@.contains(j as usize) {
                        if above0[j]@.contains(k as usize) {
                            let q = choose|q: int|
                                0 <= q < above0[j]@.len() && above0[j]@[q] == k as usize;
                            assert(above@[j]@[q] == k as usize);
                        }
                        if above@[j]@.contains(k as usize) {
                            let q = choose|q: int|
                                0 <= q < above@[j]@.len() && above@[j]@[q] == k as usize;
                            assert(above0[j]@[q] == k as usize);
                        }
                    }
                } else {
                    if under@.contains(j as usize) {
                        assert(above@[j]@[above0[j]@.len() as int] == i);
                    } else {
                        if above@[j]@.contains(k as usize) {
                            let q = choose|q: int|
                                0 <= q < above@[j]@.len() && above@[j]@[q] == k as usize;
                            assert(above0[j]@[q] < i);
                        }
                    }
                }
            }
        }
        i += 1;
    }
    proof {
        let a = lists_of(above@);
        let b = lists_of(below@);
        assert forall|k: int, j: int| 0 <= k < bs.len() && 0 <= j < bs.len() implies (
        #[trigger] b[k].contains(j as usize) <==> supports(bs, full, k, j)) by {
            assert(below@[k]@.contains(j as usize) <==> supports(bs, full, k, j));
        }
        assert forall|k: int, m: int| 0 <= k < bs.len() && 0 <= m < b[k].len() implies (
        #[trigger] b[k][m]) < k by {
            assert(below@[k]@[m] < k);
        }
        assert forall|k: int, j: int| 0 <= k < bs.len() && 0 <= j < bs.len() implies (
        #[trigger] a[j].contains(k as usize) <==> b[k].contains(j as usize)) by {
            assert(above@[j]@.contains(k as usize) <==> below@[k]@.contains(j as usize));
        }
        assert forall|k: int, m: int| 0 <= k < bs.len() && 0 <= m < a[k].len() implies (
        #[trigger] a[k][m]) < bs.len() by {
            assert(above@[k]@[m] < n);
        }
    }
    (above, below)
}

// ----------------------------------------------------------------------
// Taking bricks away
// ----------------------------------------------------------------------

/// Two boxes at least support the box `k`.
pub open spec fn has_two_supports(bs: Seq<Cuboid>, rests: Seq<int>, k: int) -> bool {
    exists|a: int, b: int|
        0 <= a < bs.len() && 0 <= b < bs.len() && a != b && #[trigger] supports(bs, rests, k, a)
            && #[trigger] supports(bs, rests, k, b)
}

/// The box `i` can be taken away: every box that it supports has another
/// support.
pub open spec fn can_go(bs: Seq<Cuboid>, rests: Seq<int>, i: int) -> bool {
    forall|k: int|
        0 <= k < bs.len() && #[trigger] supports(bs, rests, k, i) ==> has_two_supports(
            bs,
            rests,
            k,
        )
}

/// How many of the first `i` boxes can be taken away.
pub open spec fn count_can_go(bs: Seq<Cuboid>, rests: Seq<int>, i: int) -> int
    decreases i,
{
    if i <= 0 {
        0
    } else {
        count_can_go(bs, rests, i - 1) + if can_go(bs, rests, i - 1) {
            1int
        } else {
            0int
        }
    }
}

/// The box `j` falls when the box `b` is taken away: it is `b` itself, or
/// it rests on boxes that all fall.
pub open spec fn would_fall(bs: Seq<Cuboid>, rests: Seq<int>, b: int, j: int) -> bool
    decreases j,
{
    j == b || (b < j < bs.len() && (exists|s: int| 0 <= s < j && #[trigger] supports(bs, rests, j, s))
        && forall|s: int|
        0 <= s < j && #[trigger] supports(bs, rests, j, s) ==> would_fall(bs, rests, b, s))
}

/// How many of the first `k` boxes fall when the box `b` is taken away.
pub open spec fn fall_count(bs: Seq<Cuboid>, rests: Seq<int>, b: int, k: int) -> int
    decreases k,
{
    if k <= 0 {
        0
    } else {
        fall_count(bs, rests, b, k - 1) + if would_fall(bs, rests, b, k - 1) {
            1int
        } else {
            0int
        }
    }
}

/// How many other boxes fall, added up over the first `b` boxes taken away
/// one at a time.
pub open spec fn fall_sum(bs: Seq<Cuboid>, rests: Seq<int>, b: int) -> int
    decreases b,
{
    if b <= 0 {
        0
    } else {
        fall_sum(bs, rests, b - 1) + fall_count(bs, rests, b - 1, bs.len() as int) - 1
    }
}

/// What the lists say of a single box and a single entry.
proof fn lemma_entry(
    above: Seq<Seq<usize>>,
    below: Seq<Seq<usize>>,
    bs: Seq<Cuboid>,
    rests: Seq<int>,
    k: int,
    e: usize,
)
    requires
        is_support_of(above, below, bs, rests),
        0 <= k < bs.len() <= usize::MAX,
        e < bs.len(),
    ensures
        below[k].contains(e) <==> supports(bs, rests, k, e as int),
        above[e as int].contains(k as usize) <==> supports(bs, rests, k, e as int),
{
    let j = e as int;
    assert(j as usize == e);
    assert(below[k].contains(j as usize) <==> supports(bs, rests, k, j));
    assert(above[j].contains(k as usize) <==> below[k].contains(j as usize));
}

/// A list without a number twice holds two numbers at least exactly if two
/// different numbers are in it.
proof fn lemma_two_supports(
    above: Seq<Seq<usize>>,
    below: Seq<Seq<usize>>,
    bs: Seq<Cuboid>,
    rests: Seq<int>,
    k: int,
)
    requires
        is_support_of(above, below, bs, rests),
        0 <= k < bs.len() <= usize::MAX,
    ensures
        below[k].len() >= 2 <==> has_two_supports(bs, rests, k),
{
    let l = below[k];
    if l.len() >= 2 {
        assert(l[0] != l[1]);
        assert(l.contains(l[0]));
        assert(l.contains(l[1]));
        assert(l[0] < k);
        assert(l[1] < k);
        lemma_entry(above, below, bs, rests, k, l[0]);
        lemma_entry(above, below, bs, rests, k, l[1]);
    }
    if has_two_supports(bs, rests, k) {
        let (a, b) = choose|a: int, b: int|
            0 <= a < bs.len() && 0 <= b < bs.len() && a != b && #[trigger] supports(bs, rests, k, a)
                && #[trigger] supports(bs, rests, k, b);
        assert(l.contains(a as usize));
        assert(l.contains(b as usize));
        let p = choose|p: int| 0 <= p < l.len() && l[p] == a as usize;
        let q = choose|q: int| 0 <= q < l.len() && l[q] == b as usize;
        assert(p != q);
    }
}

/// The number of bricks that could be taken away without another brick
/// falling.
pub fn part1(input: Input) -> (r: usize)
    requires
        input.is_valid(),
    ensures
        r == count_can_go(input.boxes(), input.rests(), input.boxes().len() as int),
{
    let (above, below) = compute_fall(&input);
    let ghost bs = input.boxes();
    let ghost rests = input.rests();
    let ghost a = lists_of(above@);
    let ghost b = lists_of(below@);
    let n = above.len();
    let mut destroyable: usize = 0;
    let mut i: usize = 0;
    while i < n
        invariant
            i <= n,
            n == bs.len(),
            a == lists_of(above@),
            b == lists_of(below@),
            is_support_of(a, b, bs, rests),
            destroyable == count_can_go(bs, rests, i as int),
            destroyable <= i,
        decreases n - i,
    {
        let mut can_destroy = true;
        let mut m: usize = 0;
        assert(a[i as int] == above@[i as int]@);
        while m < above[i].len()
            invariant
                i < n,
                n == bs.len(),
                m <= above@[i as int]@.len(),
                a == lists_of(above@),
                b == lists_of(below@),
                a[i as int] == above@[i as int]@,
                is_support_of(a, b, bs, rests),
                can_destroy == forall|q: int|
                    0 <= q < m ==> has_two_supports(bs, rests, (#[trigger] a[i as int][q]) as int),
            decreases above@[i as int]@.len() - m,
        {
            let k = above[i][m];
            proof {
                assert(a[i as int][m as int] == k);
                assert(k < bs.len());
                assert(b[k as int] == below@[k as int]@);
                lemma_two_supports(a, b, bs, rests, k as int);
            }
            if below[k].len() < 2 {
                can_destroy = false;
            }
            m += 1;
        }
        proof {
            let l = a[i as int];
            if can_destroy {
                assert forall|k: int|
                    0 <= k < bs.len() && #[trigger] supports(bs, rests, k, i as int) implies has_two_supports(
                    bs,
                    rests,
                    k,
                ) by {
                    lemma_entry(a, b, bs, rests, k, i);
                    assert(l.contains(k as usize));
                    let q = choose|q: int| 0 <= q < l.len() && l[q] == k as usize;
                    assert(has_two_supports(bs, rests, l[q] as int));
                }
            } else {
                let q = choose|q: int|
                    0 <= q < m && !has_two_supports(bs, rests, (#[trigger] l[q]) as int);
                let k = l[q] as int;
                assert(l.contains(l[q]));
                assert(k as usize == l[q]);
                lemma_entry(a, b, bs, rests, k, i);
                assert(supports(bs, rests, k, i as int));
            }
        }
        if can_destroy {
            destroyable += 1;
        }
        i += 1;
    }
    destroyable
}

/// The lists name each other: every supporter of a box has a lower
/// number, and a box is above those that are below it.
pub open spec fn lists_agree(above: Seq<Seq<usize>>, below: Seq<Seq<usize>>) -> bool {
    &&& above.len() == below.len()
    &&& forall|k: int, m: int|
        0 <= k < below.len() && 0 <= m < below[k].len() ==> (#[trigger] below[k][m]) < k
    &&& forall|k: int, j: int|
        0 <= k < below.len() && 0 <= j < below.len() ==> (#[trigger] above[j].contains(k as usize)
            <==> below[k].contains(j as usize))
}

/// The box `j` drops when the box `b` is taken away, as the lists say: it
/// is `b` itself, or it has supporters and they all drop.
pub open spec fn drops(below: Seq<Seq<usize>>, b: int, j: int) -> bool
    decreases j,
{
    j == b || (b < j < below.len() && below[j].len() > 0 && forall|m: int|
        0 <= m < below[j].len() ==> (#[trigger] below[j][m]) < j && drops(
            below,
            b,
            below[j][m] as int,
        ))
}

/// How many of the first `k` boxes drop when the box `b` is taken away.
pub open spec fn drop_count(below: Seq<Seq<usize>>, b: int, k: int) -> int
    decreases k,
{
    if k <= 0 {
        0
    } else {
        drop_count(below, b, k - 1) + if drops(below, b, k - 1) {
            1int
        } else {
            0int
        }
    }
}

/// What the lists say of dropping is what the boxes do when they fall.
pub proof fn lemma_drops(
    above: Seq<Seq<usize>>,
    below: Seq<Seq<usize>>,
    bs: Seq<Cuboid>,
    rests: Seq<int>,
    b: int,
    j: int,
)
    requires
        is_support_of(above, below, bs, rests),
        bs.len() <= usize::MAX,
        0 <= b < bs.len(),
        0 <= j < bs.len(),
    ensures
        drops(below, b, j) == would_fall(bs, rests, b, j),
    decreases j,
{
    let l = below[j];
    if j != b && b < j {
        assert forall|m: int| 0 <= m < l.len() implies drops(below, b, (#[trigger] l[m]) as int)
            == would_fall(bs, rests, b, l[m] as int) by {
            lemma_drops(above, below, bs, rests, b, l[m] as int);
        }
        if drops(below, b, j) {
            assert(l.contains(l[0]));
            lemma_entry(above, below, bs, rests, j, l[0]);
            assert forall|s: int| 0 <= s < j && #[trigger] supports(bs, rests, j, s) implies would_fall(
                bs,
                rests,
                b,
                s,
            ) by {
                assert(l.contains(s as usize));
                let q = choose|q: int| 0 <= q < l.len() && l[q] == s as usize;
                assert(drops(below, b, l[q] as int));
            }
        }
        if would_fall(bs, rests, b, j) {
            let s = choose|s: int| 0 <= s < j && #[trigger] supports(bs, rests, j, s);
            assert(l.contains(s as usize));
            assert forall|m: int| 0 <= m < l.len() implies (#[trigger] l[m]) < j && drops(
                below,
                b,
                l[m] as int,
            ) by {
                assert(l.contains(l[m]));
                lemma_entry(above, below, bs, rests, j, l[m]);
            }
        }
    }
}

/// The lists count the boxes that drop as the boxes fall.
pub proof fn lemma_drop_count(
    above: Seq<Seq<usize>>,
    below: Seq<Seq<usize>>,
    bs: Seq<Cuboid>,
    rests: Seq<int>,
    b: int,
    k: int,
)
    requires
        is_support_of(above, below, bs, rests),
        bs.len() <= usize::MAX,
        0 <= b < bs.len(),
        k <= bs.len(),
    ensures
        drop_count(below, b, k) == fall_count(bs, rests, b, k),
    decreases k,
{
    if k > 0 {
        lemma_drop_count(above, below, bs, rests, b, k - 1);
        lemma_drops(above, below, bs, rests, b, k - 1);
    }
}

/// How many other bricks would fall if the brick were taken away.
pub fn how_many_would_fall(above: &Vec<Vec<usize>>, below: &Vec<Vec<usize>>, brick: usize) -> (r:
    usize)
    requires
        lists_agree(lists_of(above@), lists_of(below@)),
        brick < below@.len(),
    ensures
        r == drop_count(lists_of(below@), brick as int, below@.len() as int) - 1,
        r < below@.len(),
{
    let ghost bl = lists_of(below@);
    let ghost b = brick as int;
    let n = below.len();
    let mut fallen: Vec<bool> = Vec::new();
    let mut count: usize = 0;
    let mut j: usize = 0;
    while j < n
        invariant
            j <= n,
            n == below@.len(),
            brick < n,
            b == brick,
            bl == lists_of(below@),
            lists_agree(lists_of(above@), bl),
            fallen@.len() == j,
            forall|k: int| 0 <= k < j ==> fallen@[k] == drops(bl, b, k),
            count == drop_count(bl, b, j as int),
            count <= j,
            j > brick ==> count >= 1,
        decreases n - j,
    {
        let mut falls = j == brick;
        if j > brick && below[j].len() > 0 {
            let mut all = true;
            let mut m: usize = 0;
            assert(bl[j as int] == below@[j as int]@);
            while m < below[j].len()
                invariant
                    j < n,
                    n == below@.len(),
                    m <= below@[j as int]@.len(),
                    bl == lists_of(below@),
                    bl[j as int] == below@[j as int]@,
                    lists_agree(lists_of(above@), bl),
                    fallen@.len() == j,
                    forall|k: int| 0 <= k < j ==> fallen@[k] == drops(bl, b, k),
                    all == forall|q: int|
                        0 <= q < m ==> drops(bl, b, (#[trigger] bl[j as int][q]) as int),
                decreases below@[j as int]@.len() - m,
            {
                let s = below[j][m];
                assert(bl[j as int][m as int] == s);
                assert(s < j);
                if !fallen[s] {
                    all = false;
                }
                m += 1;
            }
            falls = all;
        }
        proof {
            assert(bl[j as int] == below@[j as int]@);
            assert(falls == drops(bl, b, j as int));
        }
        fallen.push(falls);
        if falls {
            count += 1;
        }
        j += 1;
    }
    count - 1
}

/// The sum, over all bricks, of the number of other bricks that would fall
/// if that brick were taken away.
pub fn part2(input: Input) -> (r: usize)
    requires
        input.is_valid(),
        forall|b: int|
            0 <= b <= input.boxes().len() ==> #[trigger] fall_sum(
                input.boxes(),
                input.rests(),
                b,
            ) <= usize::MAX,
    ensures
        r == fall_sum(input.boxes(), input.rests(), input.boxes().len() as int),
{
    let (above, below) = compute_fall(&input);
    let ghost bs = input.boxes();
    let ghost rests = input.rests();
    let n = above.len();
    let mut sum: usize = 0;
    let mut b: usize = 0;
    while b < n
        invariant
            b <= n,
            n == bs.len(),
            is_support_of(lists_of(above@), lists_of(below@), bs, rests),
            forall|k: int| 0 <= k <= bs.len() ==> #[trigger] fall_sum(bs, rests, k) <= usize::MAX,
            sum == fall_sum(bs, rests, b as int),
        decreases n - b,
    {
        proof {
            assert(fall_sum(bs, rests, b + 1) <= usize::MAX);
        }
        proof {
            lemma_drop_count(lists_of(above@), lists_of(below@), bs, rests, b as int, n as int);
        }
        sum = sum + how_many_would_fall(&above, &below, b);
        b += 1;
    }
    sum
}

// ----------------------------------------------------------------------
// Reading twice
// ----------------------------------------------------------------------


/// Reading a text twice gives the same value: two lists of bricks that
/// one text says have the same corners and the same bound.
pub proof fn lemma_parse_is_unique(a: Input, b: Input, text: Seq<u8>)
    requires
        a.is_parse_of(text),
        b.is_parse_of(text),
    ensures
        a.bound == b.bound,
        a.bricks@.len() == b.bricks@.len(),
        forall|i: int| 0 <= i < a.bricks@.len() ==> (#[trigger] a.bricks@[i]).bounds@ == b.bricks@[i].bounds@,
{
    assert forall|i: int| 0 <= i < a.bricks@.len() implies (#[trigger] a.bricks@[i]).bounds@
        == b.bricks@[i].bounds@ by {
        let x = a.bricks@[i];
        let y = b.bricks@[i];
        assert(x.is_parse_of(lines(text)[i]));
        assert(y.is_parse_of(lines(text)[i]));
        assert forall|k: int| 0 <= k < x.bounds@.len() implies x.bounds@[k] == y.bounds@[k] by {
            assert(Some(x.bounds@[k]) == corner_of(corners_of(lines(text)[i])[k]));
            assert(Some(y.bounds@[k]) == corner_of(corners_of(lines(text)[i])[k]));
        }
        assert(x.bounds@ =~= y.bounds@);
    }
}

} // verus!
