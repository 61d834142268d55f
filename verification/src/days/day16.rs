//! A beam of light enters a square field of mirrors and splitters. The
//! first part asks how many tiles the beam from the top left corner lights
//! up, the second for the most that a beam from any edge can light up.

use crate::grid::{blank, count_unmarked, has_shape, is_marked, mark};
use crate::text::{ascii_bytes, lines, rows_of, split_lines, to_ascii, ParseError};
use vstd::prelude::*;

verus! {

/// An empty tile.
pub const EMPTY: u8 = 46;

/// A splitter that lets beams pass from side to side.
pub const FLAT: u8 = 45;

/// A splitter that lets beams pass up and down.
pub const UPRIGHT: u8 = 124;

/// A mirror that sends a beam from the left upwards.
pub const SLASH: u8 = 47;

/// A mirror that sends a beam from the left downwards.
pub const BACKSLASH: u8 = 92;

/// The field, row by row, and its size as rows and columns. Tiles that a
/// row does not hold are empty.
#[derive(Debug, PartialEq, Eq)]
pub struct Input {
    pub map: Vec<Vec<u8>>,
    pub size: (i32, i32),
}

/// The way a beam travels.
#[derive(Debug, PartialEq, Eq, Structural, Hash, Clone, Copy)]
pub enum Direction {
    Right,
    Left,
    Down,
    Up,
}

/// A beam: the tile it enters and the way it travels.
#[derive(Debug, PartialEq, Eq, Hash, Clone, Copy)]
pub struct Beam {
    pub pos: (i32, i32),
    pub dir: Direction,
}

/// The tile at a position: what the field holds there, and an empty tile
/// where it holds nothing.
pub open spec fn tile_at(map: Seq<Seq<u8>>, pos: (i32, i32)) -> u8 {
    if 0 <= pos.0 < map.len() && 0 <= pos.1 < map[pos.0 as int].len() {
        map[pos.0 as int][pos.1 as int]
    } else {
        EMPTY
    }
}

/// A byte that stands for a tile.
pub open spec fn is_tile(c: u8) -> bool {
    c == EMPTY || c == FLAT || c == UPRIGHT || c == SLASH || c == BACKSLASH
}

/// The ways in which a beam leaves a tile that it entered travelling in
/// the direction `dir`.
pub open spec fn turns(dir: Direction, c: u8) -> Seq<Direction> {
    match dir {
        Direction::Right => if c == SLASH {
            seq![Direction::Up]
        } else if c == BACKSLASH {
            seq![Direction::Down]
        } else if c == UPRIGHT {
            seq![Direction::Up, Direction::Down]
        } else {
            seq![Direction::Right]
        },
        Direction::Left => if c == SLASH {
            seq![Direction::Down]
        } else if c == BACKSLASH {
            seq![Direction::Up]
        } else if c == UPRIGHT {
            seq![Direction::Up, Direction::Down]
        } else {
            seq![Direction::Left]
        },
        Direction::Down => if c == SLASH {
            seq![Direction::Left]
        } else if c == BACKSLASH {
            seq![Direction::Right]
        } else if c == FLAT {
            seq![Direction::Right, Direction::Left]
        } else {
            seq![Direction::Down]
        },
        Direction::Up => if c == SLASH {
            seq![Direction::Right]
        } else if c == BACKSLASH {
            seq![Direction::Left]
        } else if c == FLAT {
            seq![Direction::Right, Direction::Left]
        } else {
            seq![Direction::Up]
        },
    }
}

/// The beam that leaves the tile at `pos` in the direction `dir`: it
/// enters the next tile that way.
pub open spec fn leaving(pos: (i32, i32), dir: Direction) -> Beam {
    match dir {
        Direction::Right => Beam { pos: (pos.0, (pos.1 + 1) as i32), dir },
        Direction::Left => Beam { pos: (pos.0, (pos.1 - 1) as i32), dir },
        Direction::Down => Beam { pos: ((pos.0 + 1) as i32, pos.1), dir },
        Direction::Up => Beam { pos: ((pos.0 - 1) as i32, pos.1), dir },
    }
}

/// The beams that leave a tile which the beam `b` has entered.
pub open spec fn beams_after(b: Beam, c: u8) -> Seq<Beam> {
    Seq::new(turns(b.dir, c).len(), |i: int| leaving(b.pos, turns(b.dir, c)[i]))
}

/// The position lies in the square of side `n`.
pub open spec fn inside(n: int, pos: (i32, i32)) -> bool {
    0 <= pos.0 < n && 0 <= pos.1 < n
}

/// The beam `b` arises from the beam `start` in exactly `k` steps, all of
/// them inside the square of side `n`.
pub open spec fn reaches(map: Seq<Seq<u8>>, n: int, start: Beam, b: Beam, k: nat) -> bool
    decreases k,
{
    inside(n, b.pos) && if k == 0 {
        b == start
    } else {
        exists|a: Beam|
            reaches(map, n, start, a, (k - 1) as nat) && #[trigger] beams_after(
                a,
                tile_at(map, a.pos),
            ).contains(b)
    }
}

/// The beam `b` arises from the beam `start`.
pub open spec fn reachable(map: Seq<Seq<u8>>, n: int, start: Beam, b: Beam) -> bool {
    exists|k: nat| reaches(map, n, start, b, k)
}

/// A beam that arises from `start` enters the tile at `pos`.
pub open spec fn energized(map: Seq<Seq<u8>>, n: int, start: Beam, pos: (i32, i32)) -> bool {
    exists|d: Direction| reachable(map, n, start, Beam { pos, dir: d })
}

/// The number of lit tiles among the first `j` of row `i`.
pub open spec fn lit_in_row(map: Seq<Seq<u8>>, n: int, start: Beam, i: int, j: int) -> int
    decreases j,
{
    if j <= 0 {
        0
    } else {
        lit_in_row(map, n, start, i, j - 1) + if energized(
            map,
            n,
            start,
            (i as i32, (j - 1) as i32),
        ) {
            1int
        } else {
            0int
        }
    }
}

/// The number of lit tiles in the first `i` rows of the square.
pub open spec fn lit_in_rows(map: Seq<Seq<u8>>, n: int, start: Beam, i: int) -> int
    decreases i,
{
    if i <= 0 {
        0
    } else {
        lit_in_rows(map, n, start, i - 1) + lit_in_row(map, n, start, i - 1, n)
    }
}

/// The number of tiles of the square that the beam `start` lights up.
pub open spec fn lit(map: Seq<Seq<u8>>, n: int, start: Beam) -> int {
    lit_in_rows(map, n, start, n)
}

/// The beams that enter the field from its edges: for every row one from
/// the left and one from the right, then for every column one from above
/// and one from below.
pub open spec fn edge_beams(size: (i32, i32)) -> Seq<Beam> {
    let rows = if size.0 > 0 { size.0 as int } else { 0 };
    let cols = if size.1 > 0 { size.1 as int } else { 0 };
    Seq::new(
        (2 * rows + 2 * cols) as nat,
        |k: int|
            if k < 2 * rows {
                if k % 2 == 0 {
                    Beam { pos: ((k / 2) as i32, 0), dir: Direction::Right }
                } else {
                    Beam { pos: ((k / 2) as i32, (size.1 - 1) as i32), dir: Direction::Left }
                }
            } else {
                let c = k - 2 * rows;
                if c % 2 == 0 {
                    Beam { pos: (0, (c / 2) as i32), dir: Direction::Down }
                } else {
                    Beam { pos: ((size.0 - 1) as i32, (c / 2) as i32), dir: Direction::Up }
                }
            },
    )
}

/// The most tiles that one of the first `k` beams lights up.
pub open spec fn most_lit(map: Seq<Seq<u8>>, n: int, beams: Seq<Beam>, k: int) -> int
    decreases k,
{
    if k <= 0 {
        0
    } else {
        let rest = most_lit(map, n, beams, k - 1);
        let here = lit(map, n, beams[k - 1]);
        if here > rest {
            here
        } else {
            rest
        }
    }
}

impl Input {
    /// The field as rows of tiles.
    pub open spec fn field(&self) -> Seq<Seq<u8>> {
        rows_of(self.map@)
    }

    /// The side of the square that beams travel in: the number of rows.
    pub open spec fn side(&self) -> int {
        self.size.0 as int
    }

    /// Every tile of the square is a tile, and a grid of four marks for
    /// each tile can be held.
    pub open spec fn is_field(&self) -> bool {
        &&& 4 * self.size.0 <= usize::MAX
        &&& forall|i: i32, j: i32|
            0 <= i < self.size.0 && 0 <= j < self.size.0 ==> is_tile(
                #[trigger] tile_at(self.field(), (i, j)),
            )
    }

    /// This value is what the text says: the field is the lines of the
    /// text, and the size counts the lines and the bytes of the last line.
    pub open spec fn is_parse_of(&self, text: Seq<u8>) -> bool {
        &&& self.field() == lines(text)
        &&& self.size.0 == lines(text).len()
        &&& self.size.1 == lines(text).last().len()
    }

    /// The text has a line, and neither the number of its lines nor the
    /// length of the last line exceeds 32 bits with a sign.
    pub open spec fn accepts(text: Seq<u8>) -> bool {
        &&& 0 < lines(text).len() <= i32::MAX
        &&& lines(text).last().len() <= i32::MAX
    }

    /// A field with the given rows and size.
    pub fn new(map: Vec<Vec<u8>>, size: (i32, i32)) -> (r: Input)
        ensures
            r.map == map,
            r.size == size,
    {
        Input { map, size }
    }

    /// Whether the position lies in the square that beams travel in.
    pub fn is_in(&self, pos: (i32, i32)) -> (r: bool)
        ensures
            r == inside(self.side(), pos),
    {
        pos.0 >= 0 && pos.0 < self.size.0 && pos.1 >= 0 && pos.1 < self.size.0
    }

    /// The tile at a position.
    pub fn tile(&self, pos: (i32, i32)) -> (c: u8)
        ensures
            c == tile_at(self.field(), pos),
    {
        if pos.0 >= 0 && pos.1 >= 0 && (pos.0 as usize) < self.map.len() && (pos.1 as usize)
            < self.map[pos.0 as usize].len() {
            self.map[pos.0 as usize][pos.1 as usize]
        } else {
            EMPTY
        }
    }

    /// Reads a field. A text is accepted if it is ASCII and has at least
    /// one line, within the limits of the size.
    pub fn from_str(s: &str) -> (r: Result<Input, ParseError>)
        ensures
            match r {
                Ok(v) => ascii_bytes(s@) is Some && Input::accepts(ascii_bytes(s@)->0)
                    && v.is_parse_of(ascii_bytes(s@)->0),
                Err(_) => ascii_bytes(s@) is None || !Input::accepts(ascii_bytes(s@)->0),
            },
    {
        let bytes = match to_ascii(s) {
            Some(b) => b,
            None => { return Err(ParseError {  }); },
        };
        let map = split_lines(bytes.as_slice());
        if map.len() == 0 || map.len() > 0x7fff_ffff {
            return Err(ParseError {  });
        }
        let width = map[map.len() - 1].len();
        assert(rows_of(map@).last() == map@[map@.len() - 1]@);
        if width > 0x7fff_ffff {
            return Err(ParseError {  });
        }
        let size = (map.len() as i32, width as i32);
        Ok(Input::new(map, size))
    }
}

/// The beams that leave a tile which the beam `b` has entered.
pub fn process(b: &Beam, c: u8) -> (v: Vec<Beam>)
    requires
        is_tile(c),
        i32::MIN < b.pos.0 < i32::MAX,
        i32::MIN < b.pos.1 < i32::MAX,
    ensures
        v@ == beams_after(*b, c),
{
    let mut v: Vec<Beam> = Vec::new();
    let right = Beam { pos: (b.pos.0, b.pos.1 + 1), dir: Direction::Right };
    let left = Beam { pos: (b.pos.0, b.pos.1 - 1), dir: Direction::Left };
    let down = Beam { pos: (b.pos.0 + 1, b.pos.1), dir: Direction::Down };
    let up = Beam { pos: (b.pos.0 - 1, b.pos.1), dir: Direction::Up };
    match b.dir {
        Direction::Right => {
            if c == SLASH {
                v.push(up);
            } else if c == BACKSLASH {
                v.push(down);
            } else if c == UPRIGHT {
                v.push(up);
                v.push(down);
            } else {
                v.push(right);
            }
        },
        Direction::Left => {
            if c == SLASH {
                v.push(down);
            } else if c == BACKSLASH {
                v.push(up);
            } else if c == UPRIGHT {
                v.push(up);
                v.push(down);
            } else {
                v.push(left);
            }
        },
        Direction::Down => {
            if c == SLASH {
                v.push(left);
            } else if c == BACKSLASH {
                v.push(right);
            } else if c == FLAT {
                v.push(right);
                v.push(left);
            } else {
                v.push(down);
            }
        },
        Direction::Up => {
            if c == SLASH {
                v.push(right);
            } else if c == BACKSLASH {
                v.push(left);
            } else if c == FLAT {
                v.push(right);
                v.push(left);
            } else {
                v.push(up);
            }
        },
    }
    assert(v@ =~= beams_after(*b, c));
    v
}

/// The beams that enter the field from its edges.
pub fn get_all_starting_beams(size: (i32, i32)) -> (v: Vec<Beam>)
    requires
        size.0 > i32::MIN,
        size.1 > i32::MIN,
    ensures
        v@ == edge_beams(size),
{
    let mut v: Vec<Beam> = Vec::new();
    let mut i: i32 = 0;
    let ghost all = edge_beams(size);
    let ghost rows = if size.0 > 0 { size.0 as int } else { 0 };
    let ghost cols = if size.1 > 0 { size.1 as int } else { 0 };
    while i < size.0
        invariant
            0 <= i,
            i <= size.0 || (size.0 < 0 && i == 0),
            size.1 > i32::MIN,
            all == edge_beams(size),
            v@.len() == 2 * i,
            forall|k: int| 0 <= k < 2 * i ==> v@[k] == all[k],
        decreases size.0 - i,
    {
        v.push(Beam { pos: (i, 0), dir: Direction::Right });
        v.push(Beam { pos: (i, size.1 - 1), dir: Direction::Left });
        i += 1;
    }
    let mut i: i32 = 0;
    while i < size.1
        invariant
            0 <= i,
            i <= size.1 || (size.1 < 0 && i == 0),
            size.0 > i32::MIN,
            all == edge_beams(size),
            rows == if size.0 > 0 { size.0 as int } else { 0 },
            v@.len() == 2 * rows + 2 * i,
            forall|k: int| 0 <= k < 2 * rows + 2 * i ==> v@[k] == all[k],
        decreases size.1 - i,
    {
        v.push(Beam { pos: (0, i), dir: Direction::Down });
        v.push(Beam { pos: (size.0 - 1, i), dir: Direction::Up });
        i += 1;
    }
    assert(v@ =~= all);
    v
}

/// The number of a direction among the four marks of a tile.
pub open spec fn dir_index(d: Direction) -> int {
    match d {
        Direction::Right => 0,
        Direction::Left => 1,
        Direction::Down => 2,
        Direction::Up => 3,
    }
}

/// The mark of the beam is set. Each row of marks holds four marks for
/// each tile of the row of the field.
pub open spec fn seen(marks: Seq<Vec<bool>>, b: Beam) -> bool {
    marks[b.pos.0 as int]@[4 * b.pos.1 + dir_index(b.dir)]
}

/// Every beam that leaves a marked beam inside the square is marked or
/// waits on the stack, and so does the first beam.
pub open spec fn closed(
    map: Seq<Seq<u8>>,
    n: int,
    start: Beam,
    marks: Seq<Vec<bool>>,
    stack: Seq<Beam>,
) -> bool {
    &&& inside(n, start.pos) ==> seen(marks, start) || stack.contains(start)
    &&& forall|a: Beam, i: int|
        inside(n, a.pos) && seen(marks, a) && 0 <= i < beams_after(a, tile_at(map, a.pos)).len()
            && inside(n, (#[trigger] beams_after(a, tile_at(map, a.pos))[i]).pos) ==> seen(
            marks,
            beams_after(a, tile_at(map, a.pos))[i],
        ) || stack.contains(beams_after(a, tile_at(map, a.pos))[i])
}

/// Every marked beam, and every beam on the stack that lies inside the
/// square, arises from the first beam.
pub open spec fn sound(
    map: Seq<Seq<u8>>,
    n: int,
    start: Beam,
    marks: Seq<Vec<bool>>,
    stack: Seq<Beam>,
) -> bool {
    &&& forall|a: Beam| inside(n, a.pos) && #[trigger] seen(marks, a) ==> reachable(map, n, start, a)
    &&& forall|i: int|
        0 <= i < stack.len() && inside(n, (#[trigger] stack[i]).pos) ==> reachable(
            map,
            n,
            start,
            stack[i],
        )
}

/// Once nothing waits any more, every beam that arises from the first one
/// is marked.
pub proof fn lemma_all_seen(
    map: Seq<Seq<u8>>,
    n: int,
    start: Beam,
    marks: Seq<Vec<bool>>,
    b: Beam,
    k: nat,
)
    requires
        closed(map, n, start, marks, Seq::empty()),
        reaches(map, n, start, b, k),
    ensures
        seen(marks, b),
    decreases k,
{
    let none = Seq::<Beam>::empty();
    if k == 0 {
        assert(!none.contains(start));
    } else {
        let a = choose|a: Beam|
            reaches(map, n, start, a, (k - 1) as nat) && #[trigger] beams_after(
                a,
                tile_at(map, a.pos),
            ).contains(b);
        lemma_all_seen(map, n, start, marks, a, (k - 1) as nat);
        let after = beams_after(a, tile_at(map, a.pos));
        let i = choose|i: int| 0 <= i < after.len() && after[i] == b;
        assert(inside(n, after[i].pos));
        assert(!none.contains(after[i]));
    }
}

/// A beam that leaves a beam which arises from the first one arises from
/// it too.
pub proof fn lemma_reach_on(map: Seq<Seq<u8>>, n: int, start: Beam, a: Beam, i: int)
    requires
        reachable(map, n, start, a),
        0 <= i < beams_after(a, tile_at(map, a.pos)).len(),
        inside(n, beams_after(a, tile_at(map, a.pos))[i].pos),
    ensures
        reachable(map, n, start, beams_after(a, tile_at(map, a.pos))[i]),
{
    let k = choose|k: nat| reaches(map, n, start, a, k);
    let after = beams_after(a, tile_at(map, a.pos));
    assert(after.contains(after[i]));
    assert(reaches(map, n, start, after[i], k + 1));
}

/// The number of tiles that the beam lights up: the tiles of the square
/// that a beam enters which arises from it.
pub fn get_energized_tiles(input: &Input, starting_beam: Beam) -> (r: usize)
    requires
        input.is_field(),
        lit(input.field(), input.side(), starting_beam) <= usize::MAX,
    ensures
        r == lit(input.field(), input.side(), starting_beam),
{
    let ghost map = input.field();
    let ghost n = input.side();
    let ghost start = starting_beam;
    if input.size.0 <= 0 {
        proof {
            assert(lit_in_rows(map, n, start, n) == 0);
        }
        return 0;
    }
    let side: usize = input.size.0 as usize;
    let mut marks = blank(side, 4 * side);
    let mut stack: Vec<Beam> = Vec::new();
    stack.push(starting_beam);
    proof {
        assert(stack@[0] == start);
        assert(stack@.contains(start));
        if inside(n, start.pos) {
            assert(reaches(map, n, start, start, 0));
        }
        assert forall|a: Beam| inside(n, a.pos) implies !#[trigger] seen(marks@, a) by {
            assert(!marks@[a.pos.0 as int]@[4 * a.pos.1 + dir_index(a.dir)]);
        }
    }
    while stack.len() > 0
        invariant
            map == input.field(),
            n == input.side(),
            n == side,
            n > 0,
            start == starting_beam,
            input.is_field(),
            has_shape(marks@, n, 4 * n),
            closed(map, n, start, marks@, stack@),
            sound(map, n, start, marks@, stack@),
        decreases count_unmarked(marks@), stack@.len(),
    {
        let ghost stack0 = stack@;
        let ghost marks0 = marks@;
        let b = stack.pop().unwrap();
        proof {
            assert(stack0 =~= stack@.push(b));
            assert(b == stack0[stack0.len() - 1]);
            assert forall|x: Beam| stack0.contains(x) && x != b implies stack@.contains(x) by {
                let i = choose|i: int| 0 <= i < stack0.len() && stack0[i] == x;
                assert(stack@[i] == x);
            }
            assert forall|i: int| 0 <= i < stack@.len() implies stack@[i] == stack0[i] by {}
        }
        if !input.is_in(b.pos) {
            continue ;
        }
        let row: usize = b.pos.0 as usize;
        let col: usize = 4 * (b.pos.1 as usize) + match b.dir {
            Direction::Right => 0,
            Direction::Left => 1,
            Direction::Down => 2,
            Direction::Up => 3,
        };
        assert(marks@[row as int]@.len() == 4 * n);
        if is_marked(&marks, row, col) {
            assert(seen(marks@, b));
            continue ;
        }
        mark(&mut marks, row, col);
        let c = input.tile(b.pos);
        proof {
            assert(is_tile(tile_at(map, (b.pos.0, b.pos.1))));
        }
        let mut next = process(&b, c);
        let ghost after = next@;
        let ghost stack1 = stack@;
        stack.append(&mut next);
        proof {
            assert(stack@ =~= stack1 + after);
            assert(seen(marks@, b));
            assert forall|a: Beam| inside(n, a.pos) implies #[trigger] seen(marks@, a) == (seen(
                marks0,
                a,
            ) || a == b) by {
                if a.pos.0 == b.pos.0 {
                    assert(marks@[row as int]@ == marks0[row as int]@.update(col as int, true));
                    if a.pos.1 == b.pos.1 && dir_index(a.dir) == dir_index(b.dir) {
                        assert(a.dir == b.dir);
                        assert(a.pos == b.pos);
                    }
                } else {
                    assert(marks@[a.pos.0 as int] == marks0[a.pos.0 as int]);
                }
            }
            assert forall|x: Beam| stack1.contains(x) implies stack@.contains(x) by {
                let i = choose|i: int| 0 <= i < stack1.len() && stack1[i] == x;
                assert(stack@[i] == x);
            }
            assert forall|i: int| 0 <= i < after.len() implies stack@.contains(
                #[trigger] after[i],
            ) by {
                assert(stack@[stack1.len() + i] == after[i]);
            }
            assert(reachable(map, n, start, b));
            assert forall|i: int|
                0 <= i < stack@.len() && inside(n, (#[trigger] stack@[i]).pos) implies reachable(
                map,
                n,
                start,
                stack@[i],
            ) by {
                if i < stack1.len() {
                    assert(stack@[i] == stack0[i]);
                } else {
                    let j = i - stack1.len();
                    assert(stack@[i] == after[j]);
                    lemma_reach_on(map, n, start, b, j);
                }
            }
            assert forall|a: Beam, i: int|
                inside(n, a.pos) && seen(marks@, a) && 0 <= i < beams_after(
                    a,
                    tile_at(map, a.pos),
                ).len() && inside(
                    n,
                    (#[trigger] beams_after(a, tile_at(map, a.pos))[i]).pos,
                ) implies seen(marks@, beams_after(a, tile_at(map, a.pos))[i]) || stack@.contains(
                beams_after(a, tile_at(map, a.pos))[i],
            ) by {
                let x = beams_after(a, tile_at(map, a.pos))[i];
                if a == b {
                    assert(x == after[i]);
                } else {
                    assert(seen(marks0, a));
                    assert(seen(marks0, x) || stack0.contains(x));
                    if seen(marks0, x) {
                        assert(seen(marks@, x));
                    } else if x == b {
                    } else {
                        assert(stack1.contains(x));
                    }
                }
            }
            if inside(n, start.pos) {
                if seen(marks0, start) {
                    assert(seen(marks@, start));
                } else if start == b {
                } else {
                    assert(stack0.contains(start));
                    assert(stack1.contains(start));
                }
            }
        }
    }
    proof {
        assert(stack@ =~= Seq::<Beam>::empty());
        assert forall|a: Beam| inside(n, a.pos) implies #[trigger] seen(marks@, a) == reachable(
            map,
            n,
            start,
            a,
        ) by {
            if reachable(map, n, start, a) {
                let k = choose|k: nat| reaches(map, n, start, a, k);
                lemma_all_seen(map, n, start, marks@, a, k);
            }
        }
    }
    let mut count: u64 = 0;
    let mut i: usize = 0;
    while i < side
        invariant
            i <= side,
            n == side,
            0 < n <= i32::MAX,
            4 * n <= usize::MAX,
            has_shape(marks@, n, 4 * n),
            forall|a: Beam|
                inside(n, a.pos) ==> #[trigger] seen(marks@, a) == reachable(map, n, start, a),
            count == lit_in_rows(map, n, start, i as int),
            count <= i * 0x8000_0000,
        decreases side - i,
    {
        let mut j: usize = 0;
        let mut in_row: u64 = 0;
        while j < side
            invariant
                i < side,
                j <= side,
                n == side,
                0 < n <= i32::MAX,
                4 * n <= usize::MAX,
                has_shape(marks@, n, 4 * n),
                forall|a: Beam|
                    inside(n, a.pos) ==> #[trigger] seen(marks@, a) == reachable(map, n, start, a),
                in_row == lit_in_row(map, n, start, i as int, j as int),
                in_row <= j,
            decreases side - j,
        {
            assert(marks@[i as int]@.len() == 4 * n);
            let any = is_marked(&marks, i, 4 * j) || is_marked(&marks, i, 4 * j + 1) || is_marked(
                &marks,
                i,
                4 * j + 2,
            ) || is_marked(&marks, i, 4 * j + 3);
            proof {
                let pos = (i as i32, j as i32);
                assert(inside(n, pos));
                let r = Beam { pos, dir: Direction::Right };
                let l = Beam { pos, dir: Direction::Left };
                let d = Beam { pos, dir: Direction::Down };
                let u = Beam { pos, dir: Direction::Up };
                assert(seen(marks@, r) == marks@[i as int]@[4 * j]);
                assert(seen(marks@, l) == marks@[i as int]@[4 * j + 1]);
                assert(seen(marks@, d) == marks@[i as int]@[4 * j + 2]);
                assert(seen(marks@, u) == marks@[i as int]@[4 * j + 3]);
                if any {
                    assert(reachable(map, n, start, r) || reachable(map, n, start, l) || reachable(
                        map,
                        n,
                        start,
                        d,
                    ) || reachable(map, n, start, u));
                    assert(energized(map, n, start, pos));
                } else {
                    if energized(map, n, start, pos) {
                        let dir = choose|dir: Direction|
                            reachable(map, n, start, Beam { pos, dir });
                        let x = Beam { pos, dir };
                        assert(x == r || x == l || x == d || x == u);
                        assert(seen(marks@, x));
                    }
                }
            }
            if any {
                in_row += 1;
            }
            j += 1;
        }
        count += in_row;
        i += 1;
    }
    count as usize
}

/// The number of tiles that the beam from the top left corner to the right
/// lights up.
pub fn part1(input: Input) -> (r: usize)
    requires
        input.is_field(),
        lit(input.field(), input.side(), Beam { pos: (0, 0), dir: Direction::Right })
            <= usize::MAX,
    ensures
        r == lit(input.field(), input.side(), Beam { pos: (0, 0), dir: Direction::Right }),
{
    get_energized_tiles(&input, Beam { pos: (0, 0), dir: Direction::Right })
}

/// The most tiles that a beam from an edge of the field lights up.
pub fn part2(input: Input) -> (r: usize)
    requires
        input.is_field(),
        input.size.0 > 0 || input.size.1 > 0,
        input.size.0 > i32::MIN,
        input.size.1 > i32::MIN,
        forall|k: int|
            0 <= k < edge_beams(input.size).len() ==> lit(
                input.field(),
                input.side(),
                #[trigger] edge_beams(input.size)[k],
            ) <= usize::MAX,
    ensures
        r == most_lit(
            input.field(),
            input.side(),
            edge_beams(input.size),
            edge_beams(input.size).len() as int,
        ),
{
    let beams = get_all_starting_beams(input.size);
    let mut most: usize = 0;
    let mut k: usize = 0;
    while k < beams.len()
        invariant
            k <= beams@.len(),
            beams@ == edge_beams(input.size),
            input.is_field(),
            forall|j: int|
                0 <= j < edge_beams(input.size).len() ==> lit(
                    input.field(),
                    input.side(),
                    #[trigger] edge_beams(input.size)[j],
                ) <= usize::MAX,
            most == most_lit(input.field(), input.side(), beams@, k as int),
        decreases beams@.len() - k,
    {
        let here = get_energized_tiles(&input, beams[k]);
        if here > most {
            most = here;
        }
        k += 1;
    }
    most
}

// ----------------------------------------------------------------------
// Reading twice
// ----------------------------------------------------------------------


/// Reading a text twice gives the same value: two fields that one text
/// says have the same tiles and the same size.
pub proof fn lemma_parse_is_unique(a: Input, b: Input, text: Seq<u8>)
    requires
        a.is_parse_of(text),
        b.is_parse_of(text),
    ensures
        a.field() == b.field(),
        a.size == b.size,
{
}

} // verus!
