//! A map of hiking trails through a forest, some of them icy slopes. Both
//! parts ask for the longest hike from the start to the end that steps on
//! no tile twice; in the first part a slope can only be walked downhill, in
//! the second part slopes are trails like the others.

use crate::geometry::Direction;
use crate::grid::{blank, count_false, count_unmarked, has_shape, is_marked, lemma_count_false_update, mark};
use crate::text::{ascii_bytes, lines, rows_of, split_lines, to_ascii, ParseError};
use vstd::prelude::*;

verus! {

/// A tile: a path, a tree, or a slope that leads downhill one way.
#[derive(Debug, PartialEq, Eq, Structural, Clone, Copy)]
pub enum Tile {
    Path,
    Tree,
    Slope(Direction),
}

/// The map, row by row, its height and width, and the start and the end of
/// the hike.
#[derive(Debug, PartialEq, Eq)]
pub struct Input {
    pub map: Vec<Vec<Tile>>,
    pub size: (i32, i32),
    pub start: (i32, i32),
    pub end: (i32, i32),
}

/// The tile that a byte stands for.
pub open spec fn tile_of(b: u8) -> Option<Tile> {
    if b == 46 {
        Some(Tile::Path)
    } else if b == 35 {
        Some(Tile::Tree)
    } else if b == 62 {
        Some(Tile::Slope(Direction(0, 1)))
    } else if b == 60 {
        Some(Tile::Slope(Direction(0, -1i32)))
    } else if b == 118 {
        Some(Tile::Slope(Direction(1, 0)))
    } else if b == 94 {
        Some(Tile::Slope(Direction(-1i32, 0)))
    } else {
        None
    }
}

/// The index of the first path among the tiles of a line from `k` on, or
/// the length of the line.
pub open spec fn first_path(line: Seq<u8>, k: int) -> int
    decreases line.len() - k,
{
    if k < 0 || k >= line.len() {
        line.len() as int
    } else if line[k] == 46 {
        k
    } else {
        first_path(line, k + 1)
    }
}

/// One can step on the tile in the direction `dir`: on a path always, on a
/// tree never, and on a slope unless the step leads up it while slopes
/// count.
pub open spec fn may_enter(tile: Tile, dir: Direction, ignore_slopes: bool) -> bool {
    match tile {
        Tile::Path => true,
        Tile::Tree => false,
        Tile::Slope(d) => ignore_slopes || d.opposite() != dir,
    }
}

/// The four directions in the order in which neighbours are visited.
pub open spec fn compass(d: int) -> Direction {
    if d == 0 {
        Direction(0, 1)
    } else if d == 1 {
        Direction(0, -1i32)
    } else if d == 2 {
        Direction(1, 0)
    } else {
        Direction(-1i32, 0)
    }
}

impl Tile {
    /// Whether one can step on the tile in the direction `dir`.
    pub fn can_move(&self, dir: Direction, ignore_slopes: bool) -> (r: bool)
        requires
            match *self {
                Tile::Slope(d) => d.is_compass(),
                _ => true,
            },
        ensures
            r == may_enter(*self, dir, ignore_slopes),
    {
        match self {
            Tile::Path => true,
            Tile::Tree => false,
            Tile::Slope(d) => {
                let back = d.reverse();
                ignore_slopes || !(back.0 == dir.0 && back.1 == dir.1)
            },
        }
    }
}

impl Input {
    /// The map has its height in rows of its width, and every slope leads
    /// in one of the four directions.
    pub open spec fn is_valid(&self) -> bool {
        &&& self.map@.len() == self.size.0
        &&& self.size.0 >= 0
        &&& self.size.1 >= 0
        &&& forall|i: int| 0 <= i < self.size.0 ==> (#[trigger] self.map@[i])@.len() == self.size.1
        &&& forall|i: int, j: int|
            0 <= i < self.size.0 && 0 <= j < self.size.1 ==> match #[trigger] self.map@[i]@[j] {
                Tile::Slope(d) => d.is_compass(),
                _ => true,
            }
    }

    /// The position lies on the map.
    pub open spec fn inside(&self, pos: (int, int)) -> bool {
        0 <= pos.0 < self.size.0 && 0 <= pos.1 < self.size.1
    }

    /// The tile at a position of the map.
    pub open spec fn tile(&self, pos: (int, int)) -> Tile {
        self.map@[pos.0]@[pos.1]
    }

    /// One can step from `pos` in the direction number `d`.
    pub open spec fn may_step(&self, pos: (int, int), d: int, ignore_slopes: bool) -> bool {
        let next = (pos.0 + compass(d).0, pos.1 + compass(d).1);
        self.inside(next) && may_enter(self.tile(next), compass(d), ignore_slopes)
    }

    /// The positions to which one can step from `pos` in the first `d`
    /// directions.
    pub open spec fn neighbors(&self, pos: (int, int), ignore_slopes: bool, d: int) -> Seq<
        (i32, i32),
    >
        decreases d,
    {
        if d <= 0 {
            Seq::empty()
        } else if self.may_step(pos, d - 1, ignore_slopes) {
            self.neighbors(pos, ignore_slopes, d - 1).push(
                ((pos.0 + compass(d - 1).0) as i32, (pos.1 + compass(d - 1).1) as i32),
            )
        } else {
            self.neighbors(pos, ignore_slopes, d - 1)
        }
    }

    /// The position is a junction: a path whose four neighbours are slopes
    /// or trees.
    pub open spec fn is_junction(&self, pos: (int, int)) -> bool {
        &&& self.tile(pos) == Tile::Path
        &&& forall|d: int|
            0 <= d < 4 ==> #[trigger] self.tile(
                (pos.0 + compass(d).0, pos.1 + compass(d).1),
            ) != Tile::Path
    }

    /// The junctions among the first `j` tiles of row `i`, the first tile
    /// aside.
    pub open spec fn junctions_in_row(&self, i: int, j: int) -> Seq<(i32, i32)>
        decreases j,
    {
        if j <= 1 {
            Seq::empty()
        } else if self.is_junction((i, j - 1)) {
            self.junctions_in_row(i, j - 1).push((i as i32, (j - 1) as i32))
        } else {
            self.junctions_in_row(i, j - 1)
        }
    }

    /// The junctions of the rows from the second up to row `i`, the first
    /// and the last column aside.
    pub open spec fn junctions(&self, i: int) -> Seq<(i32, i32)>
        decreases i,
    {
        if i <= 1 {
            Seq::empty()
        } else {
            self.junctions(i - 1) + self.junctions_in_row(i - 1, self.size.1 - 1)
        }
    }

    /// The nodes of the map: the start, the junctions off the border, and
    /// the end.
    pub open spec fn nodes(&self) -> Seq<(i32, i32)> {
        (seq![self.start] + self.junctions(self.size.0 - 1)).push(self.end)
    }

    /// Whether the position lies on the map.
    pub fn is_in(&self, pos: (i32, i32)) -> (r: bool)
        ensures
            r == self.inside((pos.0 as int, pos.1 as int)),
    {
        pos.0 >= 0 && pos.0 < self.size.0 && pos.1 >= 0 && pos.1 < self.size.1
    }

    /// The tile at a position of the map.
    pub fn get_at(&self, pos: (i32, i32)) -> (t: Tile)
        requires
            self.is_valid(),
            self.inside((pos.0 as int, pos.1 as int)),
        ensures
            t == self.tile((pos.0 as int, pos.1 as int)),
            match t {
                Tile::Slope(d) => d.is_compass(),
                _ => true,
            },
    {
        assert(self.map@[pos.0 as int]@.len() == self.size.1);
        self.map[pos.0 as usize][pos.1 as usize]
    }

    /// The positions to which one can step from `pos`, in the order right,
    /// left, down, up.
    pub fn get_neighbors(&self, pos: (i32, i32), ignore_slopes: bool) -> (v: Vec<(i32, i32)>)
        requires
            self.is_valid(),
            i32::MIN < pos.0 < i32::MAX,
            i32::MIN < pos.1 < i32::MAX,
        ensures
            v@ == self.neighbors((pos.0 as int, pos.1 as int), ignore_slopes, 4),
            forall|k: int| 0 <= k < v@.len() ==> self.inside((#[trigger] v@[k].0 as int, v@[k].1 as int)),
    {
        let ghost p = (pos.0 as int, pos.1 as int);
        let mut v: Vec<(i32, i32)> = Vec::new();
        let dirs = Direction::compass();
        assert(dirs@[0] == compass(0) && dirs@[1] == compass(1) && dirs@[2] == compass(2)
            && dirs@[3] == compass(3));
        let mut d: usize = 0;
        assert(v@ =~= self.neighbors(p, ignore_slopes, 0));
        while d < 4
            invariant
                d <= 4,
                self.is_valid(),
                i32::MIN < pos.0 < i32::MAX,
                i32::MIN < pos.1 < i32::MAX,
                p == (pos.0 as int, pos.1 as int),
                dirs@[0] == compass(0) && dirs@[1] == compass(1) && dirs@[2] == compass(2)
                    && dirs@[3] == compass(3),
                v@ == self.neighbors(p, ignore_slopes, d as int),
                forall|k: int|
                    0 <= k < v@.len() ==> self.inside((#[trigger] v@[k].0 as int, v@[k].1 as int)),
            decreases 4 - d,
        {
            let dir = dirs[d];
            assert(dir == compass(d as int));
            let next = (pos.0 + dir.0, pos.1 + dir.1);
            if self.is_in(next) && self.get_at(next).can_move(dir, ignore_slopes) {
                v.push(next);
            }
            d += 1;
        }
        v
    }

    /// Whether the position is a junction.
    pub fn is_node(&self, pos: (i32, i32)) -> (r: bool)
        requires
            self.is_valid(),
            1 <= pos.0 < self.size.0 - 1,
            1 <= pos.1 < self.size.1 - 1,
        ensures
            r == self.is_junction((pos.0 as int, pos.1 as int)),
    {
        let ghost p = (pos.0 as int, pos.1 as int);
        if !matches!(self.get_at(pos), Tile::Path) {
            return false;
        }
        let right = self.get_at((pos.0, pos.1 + 1));
        let left = self.get_at((pos.0, pos.1 - 1));
        let down = self.get_at((pos.0 + 1, pos.1));
        let up = self.get_at((pos.0 - 1, pos.1));
        proof {
            assert(right == self.tile((p.0 + compass(0).0, p.1 + compass(0).1)));
            assert(left == self.tile((p.0 + compass(1).0, p.1 + compass(1).1)));
            assert(down == self.tile((p.0 + compass(2).0, p.1 + compass(2).1)));
            assert(up == self.tile((p.0 + compass(3).0, p.1 + compass(3).1)));
        }
        !matches!(right, Tile::Path) && !matches!(left, Tile::Path) && !matches!(down, Tile::Path)
            && !matches!(up, Tile::Path)
    }

    /// The nodes of the map: the start, the junctions off the border row
    /// by row, and the end.
    pub fn get_nodes(&self) -> (v: Vec<(i32, i32)>)
        requires
            self.is_valid(),
        ensures
            v@ == self.nodes(),
    {
        let mut v: Vec<(i32, i32)> = Vec::new();
        v.push(self.start);
        let mut row: i32 = 1;
        assert(self.junctions(1) =~= Seq::<(i32, i32)>::empty());
        while row < self.size.0 - 1
            invariant
                1 <= row,
                row <= self.size.0 - 1 || self.size.0 - 1 < 1,
                self.size.0 - 1 < 1 ==> row == 1,
                self.is_valid(),
                v@ == seq![self.start] + self.junctions(row as int),
            decreases self.size.0 - 1 - row,
        {
            let ghost before = v@;
            let mut col: i32 = 1;
            assert(self.junctions_in_row(row as int, 1) =~= Seq::<(i32, i32)>::empty());
            while col < self.size.1 - 1
                invariant
                    1 <= row < self.size.0 - 1,
                    1 <= col,
                    col <= self.size.1 - 1 || self.size.1 - 1 < 1,
                    self.size.1 - 1 < 1 ==> col == 1,
                    self.is_valid(),
                    v@ == before + self.junctions_in_row(row as int, col as int),
                decreases self.size.1 - 1 - col,
            {
                if self.is_node((row, col)) {
                    v.push((row, col));
                }
                assert(v@ =~= before + self.junctions_in_row(row as int, col + 1));
                col += 1;
            }
            proof {
                if self.size.1 - 1 < 1 {
                    assert(self.junctions_in_row(row as int, self.size.1 - 1) =~= Seq::<
                        (i32, i32),
                    >::empty());
                }
                assert(v@ =~= seq![self.start] + self.junctions(row + 1));
            }
            row += 1;
        }
        proof {
            if self.size.0 - 1 < 1 {
                assert(self.junctions(self.size.0 - 1) =~= Seq::<(i32, i32)>::empty());
            }
        }
        v.push(self.end);
        v
    }

    /// Every byte of the text is a tile, the first line has a path and so
    /// has the last, and the numbers of lines and of tiles in a line fit a
    /// position.
    pub open spec fn accepts(text: Seq<u8>) -> bool {
        let ls = lines(text);
        &&& 0 < ls.len() <= i32::MAX
        &&& forall|i: int| 0 <= i < ls.len() ==> (#[trigger] ls[i]).len() <= i32::MAX
        &&& forall|i: int, j: int|
            0 <= i < ls.len() && 0 <= j < ls[i].len() ==> tile_of(#[trigger] ls[i][j]) is Some
        &&& first_path(ls[0], 0) < ls[0].len()
        &&& first_path(ls.last(), 0) < ls.last().len()
    }

    /// This value is what the text says.
    pub open spec fn is_parse_of(&self, text: Seq<u8>) -> bool {
        let ls = lines(text);
        &&& self.size == (ls.len() as i32, ls[0].len() as i32)
        &&& self.start == (0i32, first_path(ls[0], 0) as i32)
        &&& self.end == ((ls.len() - 1) as i32, first_path(ls.last(), 0) as i32)
        &&& self.map@.len() == ls.len()
        &&& forall|i: int| 0 <= i < ls.len() ==> (#[trigger] self.map@[i])@.len() == ls[i].len()
        &&& forall|i: int, j: int|
            0 <= i < ls.len() && 0 <= j < ls[i].len() ==> Some(#[trigger] self.map@[i]@[j])
                == tile_of(ls[i][j])
    }

    /// Reads a map. A text is accepted if it is ASCII and a map of tiles
    /// with a path in its first and in its last line.
    pub fn from_str(s: &str) -> (r: Result<Input, ParseError>)
        ensures
            match r {
                Ok(v) => ascii_bytes(s@) is Some && Input::accepts(ascii_bytes(s@)->0)
                    && v.is_parse_of(ascii_bytes(s@)->0),
                Err(_) => ascii_bytes(s@) is None || !Input::accepts(ascii_bytes(s@)->0),
            },
    {
        let bytes = match to_ascii(s) {
            Some(b) => b,
            None => { return Err(ParseError {  }); },
        };
        let ghost text = bytes@;
        let ls = split_lines(bytes.as_slice());
        let ghost rows = lines(text);
        assert(rows.len() == ls@.len());
        if ls.len() == 0 || ls.len() > 0x7fff_ffff {
            return Err(ParseError {  });
        }
        let mut map: Vec<Vec<Tile>> = Vec::new();
        let mut i: usize = 0;
        while i < ls.len()
            invariant
                i <= ls@.len(),
                rows_of(ls@) == rows,
                rows == lines(text),
                ascii_bytes(s@) == Some(text),
                map@.len() == i,
                forall|a: int| 0 <= a < i ==> (#[trigger] rows[a]).len() <= i32::MAX,
                forall|a: int| 0 <= a < i ==> (#[trigger] map@[a])@.len() == rows[a].len(),
                forall|a: int, b: int|
                    0 <= a < i && 0 <= b < rows[a].len() ==> tile_of(#[trigger] rows[a][b]) is Some,
                forall|a: int, b: int|
                    0 <= a < i && 0 <= b < rows[a].len() ==> Some(#[trigger] map@[a]@[b])
                        == tile_of(rows[a][b]),
            decreases ls@.len() - i,
        {
            let line = &ls[i];
            assert(line@ == rows[i as int]);
            if line.len() > 0x7fff_ffff {
                return Err(ParseError {  });
            }
            let mut row: Vec<Tile> = Vec::new();
            let mut j: usize = 0;
            while j < line.len()
                invariant
                    j <= line@.len(),
                    i < rows.len(),
                    line@ == rows[i as int],
                    rows == lines(text),
                    ascii_bytes(s@) == Some(text),
                    row@.len() == j,
                    forall|b: int| 0 <= b < j ==> tile_of(#[trigger] line@[b]) is Some,
                    forall|b: int| 0 <= b < j ==> Some(#[trigger] row@[b]) == tile_of(line@[b]),
                decreases line@.len() - j,
            {
                let c = line[j];
                let tile = if c == 46 {
                    Tile::Path
                } else if c == 35 {
                    Tile::Tree
                } else if c == 62 {
                    Tile::Slope(Direction(0, 1))
                } else if c == 60 {
                    Tile::Slope(Direction(0, -1))
                } else if c == 118 {
                    Tile::Slope(Direction(1, 0))
                } else if c == 94 {
                    Tile::Slope(Direction(-1, 0))
                } else {
                    assert(tile_of(rows[i as int][j as int]) is None);
                    return Err(ParseError {  });
                };
                row.push(tile);
                j += 1;
            }
            map.push(row);
            i += 1;
        }
        assert(ls@[0]@ == rows[0]);
        assert(ls@[ls@.len() - 1]@ == rows.last());
        let first = find_path(ls[0].as_slice());
        let last = find_path(ls[ls.len() - 1].as_slice());
        if first >= ls[0].len() || last >= ls[ls.len() - 1].len() {
            return Err(ParseError {  });
        }
        let size = (ls.len() as i32, ls[0].len() as i32);
        let start = (0, first as i32);
        let end = (size.0 - 1, last as i32);
        Ok(Input { map, size, start, end })
    }
}

/// The index of the first path of a line, or the length of the line.
pub fn find_path(line: &[u8]) -> (r: usize)
    ensures
        r == first_path(line@, 0),
        r <= line@.len(),
{
    let mut k: usize = 0;
    while k < line.len()
        invariant
            k <= line@.len(),
            first_path(line@, 0) == first_path(line@, k as int),
        decreases line@.len() - k,
    {
        if line[k] == 46 {
            return k;
        }
        k += 1;
    }
    k
}

// ----------------------------------------------------------------------
// From the map to the graph of its nodes
// ----------------------------------------------------------------------

/// The state of a search from a node: the positions that it has stood on,
/// the positions that wait with their distances, and the nodes that it has
/// found with theirs.
pub struct Search {
    pub visited: Set<(i32, i32)>,
    pub queue: Seq<((i32, i32), i32)>,
    pub found: Seq<((i32, i32), i32)>,
}

/// One more than a distance, unless that is beyond 32 bits.
pub open spec fn further(d: i32) -> i32 {
    if d < i32::MAX {
        (d + 1) as i32
    } else {
        d
    }
}

/// Of the first `k` positions those that have not been stood on, each with
/// the distance `dist`.
pub open spec fn unvisited(ns: Seq<(i32, i32)>, visited: Set<(i32, i32)>, dist: i32, k: int)
    -> Seq<((i32, i32), i32)>
    decreases k,
{
    if k <= 0 {
        Seq::empty()
    } else if visited.contains(ns[k - 1]) {
        unvisited(ns, visited, dist, k - 1)
    } else {
        unvisited(ns, visited, dist, k - 1).push((ns[k - 1], dist))
    }
}

/// The search after one more position is taken from the front of those
/// that wait: it is stood on; if it is another node, it is found with its
/// distance, and otherwise its neighbours that have not been stood on wait
/// behind the others, one step further.
pub open spec fn search_step(
    input: Input,
    nodes: Seq<(i32, i32)>,
    node: (i32, i32),
    ignore_slopes: bool,
    s: Search,
) -> Search {
    let cur = s.queue[0].0;
    let dist = s.queue[0].1;
    let rest = s.queue.subrange(1, s.queue.len() as int);
    let visited = s.visited.insert(cur);
    if cur != node && nodes.contains(cur) {
        Search { visited, queue: rest, found: s.found.push((cur, dist)) }
    } else {
        let ns = input.neighbors((cur.0 as int, cur.1 as int), ignore_slopes, 4);
        Search {
            visited,
            queue: rest + unvisited(ns, visited, further(dist), ns.len() as int),
            found: s.found,
        }
    }
}

/// The search from a node after `k` steps; it stays as it is once no
/// position waits any more.
pub open spec fn search_after(
    input: Input,
    nodes: Seq<(i32, i32)>,
    node: (i32, i32),
    ignore_slopes: bool,
    k: nat,
) -> Search
    decreases k,
{
    if k == 0 {
        Search { visited: Set::empty(), queue: seq![(node, 0i32)], found: Seq::empty() }
    } else {
        let s = search_after(input, nodes, node, ignore_slopes, (k - 1) as nat);
        if s.queue.len() == 0 {
            s
        } else {
            search_step(input, nodes, node, ignore_slopes, s)
        }
    }
}

/// After `k` steps no position waits any more.
pub open spec fn search_done(
    input: Input,
    nodes: Seq<(i32, i32)>,
    node: (i32, i32),
    ignore_slopes: bool,
    k: nat,
) -> bool {
    search_after(input, nodes, node, ignore_slopes, k).queue.len() == 0
}

/// The nodes that the search from a node finds, each with its distance
/// along the trails, in the order in which it finds them.
pub open spec fn edges_from(
    input: Input,
    nodes: Seq<(i32, i32)>,
    node: (i32, i32),
    ignore_slopes: bool,
) -> Seq<((i32, i32), i32)> {
    search_after(
        input,
        nodes,
        node,
        ignore_slopes,
        choose|k: nat| search_done(input, nodes, node, ignore_slopes, k),
    ).found
}

/// A search that is done stays as it is.
pub proof fn lemma_search_stays(
    input: Input,
    nodes: Seq<(i32, i32)>,
    node: (i32, i32),
    ignore_slopes: bool,
    a: nat,
    b: nat,
)
    requires
        search_done(input, nodes, node, ignore_slopes, a),
        a <= b,
    ensures
        search_after(input, nodes, node, ignore_slopes, b) == search_after(
            input,
            nodes,
            node,
            ignore_slopes,
            a,
        ),
    decreases b,
{
    if a < b {
        lemma_search_stays(input, nodes, node, ignore_slopes, a, (b - 1) as nat);
    }
}

/// How many of the positions that wait from `head` on have been stood on.
pub open spec fn stale(queue: Seq<((i32, i32), i32)>, marks: Seq<Vec<bool>>, head: int) -> nat
    decreases queue.len() - head,
{
    if head < 0 || head >= queue.len() {
        0
    } else {
        stale(queue, marks, head + 1) + if marks[queue[head].0.0 as int]@[queue[head].0.1 as int] {
            1nat
        } else {
            0nat
        }
    }
}

/// A position that has not been stood on adds nothing to the stale ones.
proof fn lemma_stale_push(
    queue: Seq<((i32, i32), i32)>,
    marks: Seq<Vec<bool>>,
    head: int,
    e: ((i32, i32), i32),
)
    requires
        0 <= head <= queue.len(),
        !marks[e.0.0 as int]@[e.0.1 as int],
    ensures
        stale(queue.push(e), marks, head) == stale(queue, marks, head),
    decreases queue.len() - head,
{
    if head < queue.len() {
        lemma_stale_push(queue, marks, head + 1, e);
        assert(queue.push(e)[head] == queue[head]);
    } else {
        assert(stale(queue.push(e), marks, head + 1) == 0);
    }
}

/// Whether the list holds the position.
pub fn holds(nodes: &Vec<(i32, i32)>, pos: (i32, i32)) -> (r: bool)
    ensures
        r == nodes@.contains(pos),
{
    let mut k: usize = 0;
    while k < nodes.len()
        invariant
            k <= nodes@.len(),
            forall|j: int| 0 <= j < k ==> nodes@[j] != pos,
        decreases nodes@.len() - k,
    {
        if nodes[k].0 == pos.0 && nodes[k].1 == pos.1 {
            return true;
        }
        k += 1;
    }
    false
}

/// The marks say which positions the search has stood on.
pub open spec fn marks_are(marks: Seq<Vec<bool>>, input: Input, visited: Set<(i32, i32)>) -> bool {
    &&& has_shape(marks, input.size.0 as int, input.size.1 as int)
    &&& forall|p: (i32, i32)|
        input.inside((p.0 as int, p.1 as int)) ==> (marks[p.0 as int]@[p.1 as int]
            <==> #[trigger] visited.contains(p))
}

/// Every position that waits lies on the map.
pub open spec fn all_inside(queue: Seq<((i32, i32), i32)>, input: Input) -> bool {
    forall|k: int|
        0 <= k < queue.len() ==> input.inside(((#[trigger] queue[k]).0.0 as int, queue[k].0.1 as int))
}

/// The nodes that a search from a node finds along the trails, each with
/// its distance.
pub fn search_from(input: &Input, nodes: &Vec<(i32, i32)>, node: (i32, i32), ignore_slopes: bool)
    -> (r: Vec<((i32, i32), i32)>)
    requires
        input.is_valid(),
        input.inside((node.0 as int, node.1 as int)),
    ensures
        exists|k: nat| search_done(*input, nodes@, node, ignore_slopes, k),
        r@ == edges_from(*input, nodes@, node, ignore_slopes),
        forall|m: int| 0 <= m < r@.len() ==> nodes@.contains((#[trigger] r@[m]).0),
{
    let ghost inp = *input;
    let mut marks = blank(input.size.0 as usize, input.size.1 as usize);
    let mut queue: Vec<((i32, i32), i32)> = Vec::new();
    let mut found: Vec<((i32, i32), i32)> = Vec::new();
    queue.push((node, 0));
    let mut head: usize = 0;
    let ghost mut k: nat = 0;
    let ghost mut visited: Set<(i32, i32)> = Set::empty();
    proof {
        assert(queue@.subrange(0, 1) =~= seq![(node, 0i32)]);
    }
    while head < queue.len()
        invariant
            inp == *input,
            input.is_valid(),
            head <= queue@.len(),
            all_inside(queue@, inp),
            marks_are(marks@, inp, visited),
            search_after(inp, nodes@, node, ignore_slopes, k) == (Search {
                visited,
                queue: queue@.subrange(head as int, queue@.len() as int),
                found: found@,
            }),
            forall|m: int| 0 <= m < found@.len() ==> nodes@.contains((#[trigger] found@[m]).0),
        decreases count_unmarked(marks@), stale(queue@, marks@, head as int),
    {
        let ghost before = search_after(inp, nodes@, node, ignore_slopes, k);
        let ghost queue0 = queue@;
        let ghost marks0 = marks@;
        let (cur, dist) = queue[head];
        proof {
            assert(before.queue[0] == queue@[head as int]);
            assert(inp.inside((queue@[head as int].0.0 as int, queue@[head as int].0.1 as int)));
            assert(marks@[cur.0 as int]@.len() == inp.size.1);
        }
        let was_marked = is_marked(&marks, cur.0 as usize, cur.1 as usize);
        mark(&mut marks, cur.0 as usize, cur.1 as usize);
        proof {
            visited = visited.insert(cur);
            assert forall|p: (i32, i32)| inp.inside((p.0 as int, p.1 as int)) implies (
            marks@[p.0 as int]@[p.1 as int] <==> #[trigger] visited.contains(p)) by {
                if p.0 != cur.0 {
                    assert(marks@[p.0 as int] == marks0[p.0 as int]);
                }
                assert(marks0[p.0 as int]@[p.1 as int] <==> before.visited.contains(p));
            }
            assert forall|x: int| 0 <= x < inp.size.0 implies (#[trigger] marks@[x])@.len()
                == inp.size.1 by {
                assert(marks0[x]@.len() == inp.size.1);
            }
            if was_marked {
                assert(marks@[cur.0 as int]@ =~= marks0[cur.0 as int]@);
                assert forall|x: int| 0 <= x < marks0.len() implies marks@[x]@ == marks0[x]@ by {
                    if x != cur.0 {
                        assert(marks@[x] == marks0[x]);
                    }
                }
                crate::grid::lemma_count_unmarked_same(marks@, marks0);
                lemma_stale_same(queue0, marks@, marks0, head as int);
            }
        }
        head += 1;
        let rest_len = queue.len();
        if !(cur.0 == node.0 && cur.1 == node.1) && holds(nodes, cur) {
            found.push((cur, dist));
            proof {
                k = k + 1;
                assert(queue@.subrange(head as int, queue@.len() as int) =~= before.queue.subrange(
                    1,
                    before.queue.len() as int,
                ));
            }
        } else {
            let ns = input.get_neighbors(cur, ignore_slopes);
            let next_dist: i32 = if dist < i32::MAX { dist + 1 } else { dist };
            let ghost rest = before.queue.subrange(1, before.queue.len() as int);
            let mut i: usize = 0;
            proof {
                assert(queue@.subrange(head as int, queue@.len() as int) =~= rest + unvisited(
                    ns@,
                    visited,
                    next_dist,
                    0,
                ));
            }
            while i < ns.len()
                invariant
                    i <= ns@.len(),
                    inp == *input,
                    head <= rest_len <= queue@.len(),
                    rest_len == queue0.len(),
                    forall|m: int| 0 <= m < rest_len ==> queue@[m] == queue0[m],
                    all_inside(queue@, inp),
                    marks_are(marks@, inp, visited),
                    forall|m: int|
                        0 <= m < ns@.len() ==> inp.inside((#[trigger] ns@[m].0 as int, ns@[m].1 as int)),
                    queue@.subrange(head as int, queue@.len() as int) == rest + unvisited(
                        ns@,
                        visited,
                        next_dist,
                        i as int,
                    ),
                    stale(queue@, marks@, head as int) == stale(queue0, marks@, head as int),
                decreases ns@.len() - i,
            {
                let n = ns[i];
                assert(inp.inside((ns@[i as int].0 as int, ns@[i as int].1 as int)));
                assert(marks@[n.0 as int]@.len() == inp.size.1);
                if !is_marked(&marks, n.0 as usize, n.1 as usize) {
                    let ghost q1 = queue@;
                    proof {
                        lemma_stale_push(q1, marks@, head as int, (n, next_dist));
                    }
                    queue.push((n, next_dist));
                    proof {
                        assert(!visited.contains(n));
                        assert(queue@.subrange(head as int, queue@.len() as int) =~= q1.subrange(
                            head as int,
                            q1.len() as int,
                        ).push((n, next_dist)));
                        assert forall|m: int| 0 <= m < queue@.len() implies inp.inside(
                            ((#[trigger] queue@[m]).0.0 as int, queue@[m].0.1 as int),
                        ) by {
                            if m < q1.len() {
                                assert(queue@[m] == q1[m]);
                            }
                        }
                    }
                } else {
                    assert(visited.contains(n));
                }
                proof {
                    assert(queue@.subrange(head as int, queue@.len() as int) =~= rest + unvisited(
                        ns@,
                        visited,
                        next_dist,
                        i + 1,
                    ));
                }
                i += 1;
            }
            proof {
                k = k + 1;
            }
        }
        proof {
            // The measure went down: a new mark, or one stale position less.
            if !was_marked {
                assert(count_unmarked(marks@) < count_unmarked(marks0));
            } else {
                assert(count_unmarked(marks@) == count_unmarked(marks0));
                assert(stale(queue0, marks0, head - 1) == stale(queue0, marks0, head as int) + 1);
                lemma_stale_same(queue0, marks@, marks0, head as int);
            }
        }
    }
    proof {
        assert(queue@.subrange(head as int, queue@.len() as int) =~= Seq::<
            ((i32, i32), i32),
        >::empty());
        assert(search_done(inp, nodes@, node, ignore_slopes, k));
        let c = choose|c: nat| search_done(inp, nodes@, node, ignore_slopes, c);
        if c <= k {
            lemma_search_stays(inp, nodes@, node, ignore_slopes, c, k);
        } else {
            lemma_search_stays(inp, nodes@, node, ignore_slopes, k, c);
        }
    }
    found
}

/// The stale positions are the same for marks that are the same.
proof fn lemma_stale_same(
    queue: Seq<((i32, i32), i32)>,
    a: Seq<Vec<bool>>,
    b: Seq<Vec<bool>>,
    head: int,
)
    requires
        a.len() == b.len(),
        forall|x: int| 0 <= x < a.len() ==> a[x]@ == b[x]@,
        forall|m: int|
            0 <= m < queue.len() ==> 0 <= (#[trigger] queue[m]).0.0 < a.len(),
    ensures
        stale(queue, a, head) == stale(queue, b, head),
    decreases queue.len() - head,
{
    if 0 <= head < queue.len() {
        lemma_stale_same(queue, a, b, head + 1);
    }
}

/// The index of the first entry from `k` on that is kept under the
/// position; the number of entries, if there is none.
pub open spec fn key_index(
    graph: Seq<((i32, i32), Seq<((i32, i32), i32)>)>,
    pos: (i32, i32),
    k: int,
) -> int
    decreases graph.len() - k,
{
    if k < 0 || k >= graph.len() {
        graph.len() as int
    } else if graph[k].0 == pos {
        k
    } else {
        key_index(graph, pos, k + 1)
    }
}

/// Every node that an edge of the graph leads to has an entry in it.
pub open spec fn is_closed(graph: Seq<((i32, i32), Seq<((i32, i32), i32)>)>) -> bool {
    forall|i: int, m: int|
        0 <= i < graph.len() && 0 <= m < graph[i].1.len() ==> key_index(
            graph,
            (#[trigger] graph[i].1[m]).0,
            0,
        ) < graph.len()
}

/// The graph of the map's nodes: one entry for each node, in their
/// order, with the nodes that the search from it finds.
pub open spec fn graph_of(input: Input, ignore_slopes: bool) -> Seq<
    ((i32, i32), Seq<((i32, i32), i32)>),
> {
    Seq::new(
        input.nodes().len(),
        |i: int|
            (input.nodes()[i], edges_from(input, input.nodes(), input.nodes()[i], ignore_slopes)),
    )
}

/// The entries of a graph, each with its edges as a sequence.
pub open spec fn links(graph: Seq<((i32, i32), Vec<((i32, i32), i32)>)>) -> Seq<
    ((i32, i32), Seq<((i32, i32), i32)>),
> {
    Seq::new(graph.len(), |i: int| (graph[i].0, graph[i].1@))
}

proof fn lemma_key_index(graph: Seq<((i32, i32), Seq<((i32, i32), i32)>)>, pos: (i32, i32), k: int)
    requires
        0 <= k <= graph.len(),
    ensures
        k <= key_index(graph, pos, k) <= graph.len(),
        key_index(graph, pos, k) < graph.len() ==> graph[key_index(graph, pos, k)].0 == pos,
        forall|j: int| k <= j < key_index(graph, pos, k) ==> (#[trigger] graph[j]).0 != pos,
    decreases graph.len() - k,
{
    if k < graph.len() && graph[k].0 != pos {
        lemma_key_index(graph, pos, k + 1);
    }
}

/// A position that some entry is kept under has a first such entry.
proof fn lemma_key_found(graph: Seq<((i32, i32), Seq<((i32, i32), i32)>)>, pos: (i32, i32), j: int)
    requires
        0 <= j < graph.len(),
        graph[j].0 == pos,
    ensures
        key_index(graph, pos, 0) <= j,
{
    lemma_key_index(graph, pos, 0);
}

/// The larger of two numbers.
pub open spec fn larger(a: int, b: int) -> int {
    if a >= b {
        a
    } else {
        b
    }
}

/// The length of the longest hike from a node to the end that enters no
/// node twice and none that is marked. From a node that is marked it is
/// the least 32-bit number, and the longest from a node is the largest,
/// over its edges, of the edge's length plus the longest from where the
/// edge leads, or the least 32-bit number if it has no edge.
pub open spec fn longest(
    graph: Seq<((i32, i32), Seq<((i32, i32), i32)>)>,
    curr: (i32, i32),
    end: (i32, i32),
    marks: Seq<bool>,
) -> int
    decreases count_false(marks), 0int, 0int,
    via longest_decreases
{
    let idx = key_index(graph, curr, 0);
    if curr == end {
        0
    } else if !(0 <= idx < marks.len()) || idx >= graph.len() || marks[idx] {
        i32::MIN as int
    } else {
        longest_over(graph, idx, end, marks.update(idx, true), graph[idx].1.len() as int)
    }
}

/// The largest, over the first `m` edges of an entry, of the edge's length
/// plus the longest hike from where the edge leads.
pub open spec fn longest_over(
    graph: Seq<((i32, i32), Seq<((i32, i32), i32)>)>,
    idx: int,
    end: (i32, i32),
    marks: Seq<bool>,
    m: int,
) -> int
    decreases count_false(marks), 1int, m,
{
    if m <= 0 {
        i32::MIN as int
    } else {
        larger(
            longest_over(graph, idx, end, marks, m - 1),
            graph[idx].1[m - 1].1 + longest(graph, graph[idx].1[m - 1].0, end, marks),
        )
    }
}

#[via_fn]
proof fn longest_decreases(
    graph: Seq<((i32, i32), Seq<((i32, i32), i32)>)>,
    curr: (i32, i32),
    end: (i32, i32),
    marks: Seq<bool>,
) {
    let idx = key_index(graph, curr, 0);
    if curr != end && 0 <= idx < marks.len() && idx < graph.len() && !marks[idx] {
        lemma_count_false_update(marks, idx);
    }
}

/// Every sum that the longest hike is made of fits 32 bits.
pub open spec fn hike_fits(
    graph: Seq<((i32, i32), Seq<((i32, i32), i32)>)>,
    curr: (i32, i32),
    end: (i32, i32),
    marks: Seq<bool>,
) -> bool
    decreases count_false(marks), 0int, 0int,
    via hike_fits_decreases
{
    let idx = key_index(graph, curr, 0);
    if curr == end {
        true
    } else if !(0 <= idx < marks.len()) || idx >= graph.len() || marks[idx] {
        true
    } else {
        hike_fits_over(graph, idx, end, marks.update(idx, true), graph[idx].1.len() as int)
    }
}

/// Every sum that the first `m` edges of an entry give fits 32 bits.
pub open spec fn hike_fits_over(
    graph: Seq<((i32, i32), Seq<((i32, i32), i32)>)>,
    idx: int,
    end: (i32, i32),
    marks: Seq<bool>,
    m: int,
) -> bool
    decreases count_false(marks), 1int, m,
{
    if m <= 0 {
        true
    } else {
        &&& hike_fits_over(graph, idx, end, marks, m - 1)
        &&& hike_fits(graph, graph[idx].1[m - 1].0, end, marks)
        &&& i32::MIN <= graph[idx].1[m - 1].1 + longest(graph, graph[idx].1[m - 1].0, end, marks)
            <= i32::MAX
    }
}

#[via_fn]
proof fn hike_fits_decreases(
    graph: Seq<((i32, i32), Seq<((i32, i32), i32)>)>,
    curr: (i32, i32),
    end: (i32, i32),
    marks: Seq<bool>,
) {
    let idx = key_index(graph, curr, 0);
    if curr != end && 0 <= idx < marks.len() && idx < graph.len() && !marks[idx] {
        lemma_count_false_update(marks, idx);
    }
}

impl Input {
    /// The start and the end lie on the map.
    pub open spec fn is_ready(&self) -> bool {
        &&& self.is_valid()
        &&& self.inside((self.start.0 as int, self.start.1 as int))
        &&& self.inside((self.end.0 as int, self.end.1 as int))
    }

    /// Every node lies on the map.
    pub proof fn lemma_nodes_inside(&self)
        requires
            self.is_ready(),
        ensures
            forall|i: int|
                0 <= i < self.nodes().len() ==> self.inside(
                    ((#[trigger] self.nodes()[i]).0 as int, self.nodes()[i].1 as int),
                ),
    {
        self.lemma_junctions_inside(self.size.0 - 1);
    }

    proof fn lemma_row_inside(&self, i: int, j: int)
        requires
            0 < i < self.size.0,
            j <= self.size.1,
        ensures
            forall|k: int|
                0 <= k < self.junctions_in_row(i, j).len() ==> self.inside(
                    ((#[trigger] self.junctions_in_row(i, j)[k]).0 as int, self.junctions_in_row(
                        i,
                        j,
                    )[k].1 as int),
                ),
        decreases j,
    {
        if j > 1 {
            self.lemma_row_inside(i, j - 1);
            let prev = self.junctions_in_row(i, j - 1);
            let all = self.junctions_in_row(i, j);
            assert forall|k: int| 0 <= k < all.len() implies self.inside(
                ((#[trigger] all[k]).0 as int, all[k].1 as int),
            ) by {
                if k < prev.len() {
                    assert(all[k] == prev[k]);
                } else {
                    assert(all[k] == (i as i32, (j - 1) as i32));
                }
            }
        }
    }

    proof fn lemma_junctions_inside(&self, i: int)
        requires
            i <= self.size.0,
        ensures
            forall|k: int|
                0 <= k < self.junctions(i).len() ==> self.inside(
                    ((#[trigger] self.junctions(i)[k]).0 as int, self.junctions(i)[k].1 as int),
                ),
        decreases i,
    {
        if i > 1 {
            self.lemma_junctions_inside(i - 1);
            self.lemma_row_inside(i - 1, self.size.1 - 1);
            let prev = self.junctions(i - 1);
            let row = self.junctions_in_row(i - 1, self.size.1 - 1);
            let all = self.junctions(i);
            assert forall|k: int| 0 <= k < all.len() implies self.inside(
                ((#[trigger] all[k]).0 as int, all[k].1 as int),
            ) by {
                if k < prev.len() {
                    assert(all[k] == prev[k]);
                } else {
                    assert(all[k] == row[k - prev.len()]);
                }
            }
        }
    }

    /// The graph of the map's nodes: for each node the nodes that a search
    /// along the trails finds from it, with their distances.
    pub fn build_graph(&self, ignore_slopes: bool) -> (graph: Vec<
        ((i32, i32), Vec<((i32, i32), i32)>),
    >)
        requires
            self.is_ready(),
        ensures
            links(graph@) == graph_of(*self, ignore_slopes),
            is_closed(links(graph@)),
    {
        let nodes = self.get_nodes();
        let mut graph: Vec<((i32, i32), Vec<((i32, i32), i32)>)> = Vec::new();
        let mut i: usize = 0;
        proof {
            self.lemma_nodes_inside();
        }
        while i < nodes.len()
            invariant
                i <= nodes@.len(),
                nodes@ == self.nodes(),
                self.is_ready(),
                graph@.len() == i,
                forall|k: int|
                    0 <= k < nodes@.len() ==> self.inside(
                        ((#[trigger] nodes@[k]).0 as int, nodes@[k].1 as int),
                    ),
                forall|k: int|
                    0 <= k < i ==> (#[trigger] graph@[k]).0 == nodes@[k] && graph@[k].1@
                        == edges_from(*self, nodes@, nodes@[k], ignore_slopes),
                forall|k: int, m: int|
                    0 <= k < i && 0 <= m < graph@[k].1@.len() ==> nodes@.contains(
                        (#[trigger] graph@[k].1@[m]).0,
                    ),
            decreases nodes@.len() - i,
        {
            let node = nodes[i];
            assert(self.inside((nodes@[i as int].0 as int, nodes@[i as int].1 as int)));
            let found = search_from(self, &nodes, node, ignore_slopes);
            graph.push((node, found));
            i += 1;
        }
        proof {
            let g = links(graph@);
            assert(g =~= graph_of(*self, ignore_slopes));
            assert forall|k: int, m: int| 0 <= k < g.len() && 0 <= m < g[k].1.len() implies key_index(
                g,
                (#[trigger] g[k].1[m]).0,
                0,
            ) < g.len() by {
                let target = g[k].1[m].0;
                assert(target == graph@[k].1@[m].0);
                assert(nodes@.contains(target));
                let j = choose|j: int| 0 <= j < nodes@.len() && nodes@[j] == target;
                assert(g[j].0 == target);
                lemma_key_found(g, target, j);
            }
        }
        graph
    }
}

/// The index of the first entry that is kept under the position.
pub fn find_key(graph: &Vec<((i32, i32), Vec<((i32, i32), i32)>)>, pos: (i32, i32)) -> (r: usize)
    ensures
        r == key_index(links(graph@), pos, 0),
        r <= graph@.len(),
{
    let mut k: usize = 0;
    while k < graph.len()
        invariant
            k <= graph@.len(),
            key_index(links(graph@), pos, 0) == key_index(links(graph@), pos, k as int),
        decreases graph@.len() - k,
    {
        if graph[k].0.0 == pos.0 && graph[k].0.1 == pos.1 {
            return k;
        }
        assert(links(graph@)[k as int].0 == graph@[k as int].0);
        k += 1;
    }
    k
}

/// The length of the longest hike from a node to the end that enters no
/// node twice and none that is marked. The marks are left as they were.
pub fn dfs(
    graph: &Vec<((i32, i32), Vec<((i32, i32), i32)>)>,
    curr: (i32, i32),
    end: (i32, i32),
    visited: &mut Vec<bool>,
) -> (r: i32)
    requires
        old(visited)@.len() == graph@.len(),
        is_closed(links(graph@)),
        hike_fits(links(graph@), curr, end, old(visited)@),
        curr == end || key_index(links(graph@), curr, 0) < graph@.len(),
    ensures
        r == longest(links(graph@), curr, end, old(visited)@),
        final(visited)@ == old(visited)@,
    decreases count_false(old(visited)@),
{
    if curr.0 == end.0 && curr.1 == end.1 {
        return 0;
    }
    let ghost g = links(graph@);
    let idx = find_key(graph, curr);
    if visited[idx] {
        return i32::MIN;
    }
    let ghost before = visited@;
    visited[idx] = true;
    let ghost marks = visited@;
    proof {
        lemma_count_false_update(before, idx as int);
        assert(marks =~= before.update(idx as int, true));
        assert(g[idx as int].1 == graph@[idx as int].1@);
    }
    let mut max: i32 = i32::MIN;
    let mut m: usize = 0;
    while m < graph[idx].1.len()
        invariant
            m <= graph@[idx as int].1@.len(),
            idx < graph@.len(),
            g == links(graph@),
            g[idx as int].1 == graph@[idx as int].1@,
            before == old(visited)@,
            visited@ == marks,
            marks.len() == graph@.len(),
            is_closed(g),
            count_false(marks) < count_false(before),
            hike_fits_over(g, idx as int, end, marks, g[idx as int].1.len() as int),
            max == longest_over(g, idx as int, end, marks, m as int),
        decreases graph@[idx as int].1@.len() - m,
    {
        let (pos, dist) = graph[idx].1[m];
        proof {
            lemma_fits_upto(g, idx as int, end, marks, g[idx as int].1.len() as int, m + 1);
            assert(key_index(g, g[idx as int].1[m as int].0, 0) < g.len());
        }
        let rest = dfs(graph, pos, end, visited);
        let through: i32 = dist + rest;
        if through > max {
            max = through;
        }
        m += 1;
    }
    visited[idx] = false;
    proof {
        assert(visited@ =~= before);
    }
    max
}

/// What fits for the first edges of an entry fits for fewer of them.
proof fn lemma_fits_upto(
    graph: Seq<((i32, i32), Seq<((i32, i32), i32)>)>,
    idx: int,
    end: (i32, i32),
    marks: Seq<bool>,
    n: int,
    m: int,
)
    requires
        0 <= m <= n,
        hike_fits_over(graph, idx, end, marks, n),
    ensures
        hike_fits_over(graph, idx, end, marks, m),
    decreases n,
{
    if m < n {
        lemma_fits_upto(graph, idx, end, marks, n - 1, m);
    }
}

/// No node is marked.
pub open spec fn unmarked(n: int) -> Seq<bool> {
    Seq::new(n as nat, |k: int| false)
}

/// The length of the longest hike from the start to the end over the
/// graph of the map's nodes.
pub open spec fn longest_hike(input: Input, ignore_slopes: bool) -> int {
    longest(
        graph_of(input, ignore_slopes),
        input.start,
        input.end,
        unmarked(input.nodes().len() as int),
    )
}

/// Every sum that the longest hike from the start is made of fits 32 bits.
pub open spec fn hike_is_short(input: Input, ignore_slopes: bool) -> bool {
    hike_fits(
        graph_of(input, ignore_slopes),
        input.start,
        input.end,
        unmarked(input.nodes().len() as int),
    )
}

/// The longest hike over the graph of the map's nodes.
fn hike(input: &Input, ignore_slopes: bool) -> (r: i32)
    requires
        input.is_ready(),
        hike_is_short(*input, ignore_slopes),
    ensures
        r == longest_hike(*input, ignore_slopes),
{
    let graph = input.build_graph(ignore_slopes);
    let mut visited: Vec<bool> = Vec::new();
    let mut k: usize = 0;
    while k < graph.len()
        invariant
            k <= graph@.len(),
            visited@ == unmarked(k as int),
        decreases graph@.len() - k,
    {
        visited.push(false);
        assert(visited@ =~= unmarked(k + 1));
        k += 1;
    }
    proof {
        let g = links(graph@);
        assert(g[0].0 == input.nodes()[0]);
        lemma_key_found(g, input.start, 0);
    }
    dfs(&graph, input.start, input.end, &mut visited)
}

/// The length of the longest hike from the start to the end that goes
/// down the slopes only.
pub fn part1(input: Input) -> (r: i32)
    requires
        input.is_ready(),
        hike_is_short(input, false),
    ensures
        r == longest_hike(input, false),
{
    hike(&input, false)
}

/// The length of the longest hike from the start to the end that may go
/// up the slopes too.
pub fn part2(input: Input) -> (r: i32)
    requires
        input.is_ready(),
        hike_is_short(input, true),
    ensures
        r == longest_hike(input, true),
{
    hike(&input, true)
}

// ----------------------------------------------------------------------
// Reading twice
// ----------------------------------------------------------------------


/// Reading a text twice gives the same value: two maps that one text says
/// have the same size, start, end and tiles.
pub proof fn lemma_parse_is_unique(a: Input, b: Input, text: Seq<u8>)
    requires
        a.is_parse_of(text),
        b.is_parse_of(text),
    ensures
        a.size == b.size,
        a.start == b.start,
        a.end == b.end,
        a.map@.len() == b.map@.len(),
        forall|i: int| 0 <= i < a.map@.len() ==> (#[trigger] a.map@[i])@ == b.map@[i]@,
{
    let ls = lines(text);
    assert forall|i: int| 0 <= i < a.map@.len() implies (#[trigger] a.map@[i])@ == b.map@[i]@ by {
        assert forall|j: int| 0 <= j < ls[i].len() implies a.map@[i]@[j] == b.map@[i]@[j] by {
            assert(Some(a.map@[i]@[j]) == tile_of(ls[i][j]));
            assert(Some(b.map@[i]@[j]) == tile_of(ls[i][j]));
        }
        assert(a.map@[i]@ =~= b.map@[i]@);
    }
}

} // verus!
