//! A field of pipes holds one closed loop through the start tile. The first
//! part asks how far along the loop the farthest tile lies, the second how
//! many tiles the loop encloses.

use crate::geometry::manhattan;
use crate::text::{ascii_bytes, find, find_from, lines, rows_of, split_lines, to_ascii, ParseError};
use vstd::prelude::*;

verus! {

/// A pipe from left to right.
pub const HORIZONTAL: u8 = 45;

/// A pipe from top to bottom.
pub const VERTICAL: u8 = 124;

/// A bend that joins left and bottom.
pub const BEND_7: u8 = 55;

/// A bend that joins top and right.
pub const BEND_L: u8 = 76;

/// A bend that joins top and left.
pub const BEND_J: u8 = 74;

/// A bend that joins bottom and right.
pub const BEND_F: u8 = 70;

/// The start tile.
pub const START: u8 = 83;

/// The field, row by row, and the position of the start tile.
#[derive(Debug, PartialEq, Eq)]
pub struct Input {
    pub map: Vec<Vec<u8>>,
    pub start: (usize, usize),
}

/// The tile at a position, if the position lies in the field.
pub open spec fn tile(m: Seq<Seq<u8>>, p: (int, int)) -> Option<u8> {
    if 0 <= p.0 < m.len() && 0 <= p.1 < m[p.0].len() {
        Some(m[p.0][p.1])
    } else {
        None
    }
}

/// Where the pipe at `to` leads when it is entered from `from`: nowhere
/// unless `to` lies in the field next to `from`, holds a pipe with an
/// opening towards `from`, and its other opening does not point to a
/// negative row or column.
pub open spec fn next_of(m: Seq<Seq<u8>>, from: (int, int), to: (int, int)) -> Option<(int, int)> {
    match tile(m, to) {
        None => None,
        Some(c) => {
            let d = (to.0 - from.0, to.1 - from.1);
            let right = (to.0, to.1 + 1);
            let left = (to.0, to.1 - 1);
            let down = (to.0 + 1, to.1);
            let up = (to.0 - 1, to.1);
            let n: Option<(int, int)> = if manhattan(from, to) != 1 {
                None
            } else if d == (0int, 1int) && c == HORIZONTAL {
                Some(right)
            } else if d == (0int, -1int) && c == HORIZONTAL {
                Some(left)
            } else if d == (1int, 0int) && c == VERTICAL {
                Some(down)
            } else if d == (-1int, 0int) && c == VERTICAL {
                Some(up)
            } else if d == (0int, 1int) && c == BEND_7 {
                Some(down)
            } else if d == (-1int, 0int) && c == BEND_7 {
                Some(left)
            } else if d == (1int, 0int) && c == BEND_L {
                Some(right)
            } else if d == (0int, -1int) && c == BEND_L {
                Some(up)
            } else if d == (0int, 1int) && c == BEND_J {
                Some(up)
            } else if d == (1int, 0int) && c == BEND_J {
                Some(left)
            } else if d == (0int, -1int) && c == BEND_F {
                Some(down)
            } else if d == (-1int, 0int) && c == BEND_F {
                Some(right)
            } else {
                None
            };
            match n {
                Some(p) => if p.0 >= 0 && p.1 >= 0 {
                    n
                } else {
                    None
                },
                None => None,
            }
        },
    }
}

/// The first step of the walk: the first of the tiles to the right, below,
/// to the left and above the start that holds a pipe open towards the
/// start, and where that pipe leads.
pub open spec fn first_move(m: Seq<Seq<u8>>, start: (int, int)) -> Option<((int, int), (int, int))> {
    let right = (start.0, start.1 + 1);
    let down = (start.0 + 1, start.1);
    let left = (start.0, start.1 - 1);
    let up = (start.0 - 1, start.1);
    if next_of(m, start, right) is Some {
        Some((right, next_of(m, start, right)->0))
    } else if next_of(m, start, down) is Some {
        Some((down, next_of(m, start, down)->0))
    } else if next_of(m, start, left) is Some {
        Some((left, next_of(m, start, left)->0))
    } else if next_of(m, start, up) is Some {
        Some((up, next_of(m, start, up)->0))
    } else {
        None
    }
}

/// The walk after `n` steps along the pipes: the tile it stands on and the
/// tile it enters next, as long as the pipes lead on.
pub open spec fn walk(m: Seq<Seq<u8>>, start: (int, int), n: nat) -> Option<((int, int), (int, int))>
    decreases n,
{
    if n == 0 {
        first_move(m, start)
    } else {
        match walk(m, start, (n - 1) as nat) {
            None => None,
            Some((cur, nxt)) => match next_of(m, cur, nxt) {
                None => None,
                Some(p) => Some((nxt, p)),
            },
        }
    }
}

/// The walk comes to its end after exactly `n` steps: the tile it enters
/// next leads no further.
pub open spec fn walk_stops(m: Seq<Seq<u8>>, start: (int, int), n: nat) -> bool {
    match walk(m, start, n) {
        Some((cur, nxt)) => next_of(m, cur, nxt) is None,
        None => false,
    }
}

/// The tiles that the walk has left behind after `n` steps, with the start.
pub open spec fn trail(m: Seq<Seq<u8>>, start: (int, int), n: nat) -> Set<(int, int)>
    decreases n,
{
    if n == 0 {
        set![start]
    } else {
        match walk(m, start, (n - 1) as nat) {
            Some((cur, nxt)) => trail(m, start, (n - 1) as nat).insert(cur),
            None => trail(m, start, (n - 1) as nat),
        }
    }
}

/// The state of a scan along row `i` after its first `j` tiles: how often
/// the loop was crossed, whether the last bend met came from below, and how
/// many tiles off the trail lay behind an odd number of crossings.
pub open spec fn scan_row(m: Seq<Seq<u8>>, on: Set<(int, int)>, i: int, j: int) -> (int, bool, int)
    decreases j,
{
    if j <= 0 {
        (0, false, 0)
    } else {
        let (crossings, from_below, inside) = scan_row(m, on, i, j - 1);
        let c = m[i][j - 1];
        if on.contains((i, j - 1)) {
            if c == VERTICAL {
                (crossings + 1, from_below, inside)
            } else if c == BEND_F {
                (crossings, true, inside)
            } else if c == BEND_L {
                (crossings, false, inside)
            } else if c == BEND_J {
                (crossings + if from_below { 1int } else { 0int }, from_below, inside)
            } else if c == BEND_7 || c == START {
                (crossings + if from_below { 0int } else { 1int }, from_below, inside)
            } else {
                (crossings, from_below, inside)
            }
        } else {
            (crossings, from_below, inside + crossings % 2)
        }
    }
}

/// The number of tiles of the first `i` rows that lie off the trail and
/// behind an odd number of crossings of it.
pub open spec fn enclosed_upto(m: Seq<Seq<u8>>, on: Set<(int, int)>, i: int) -> int
    decreases i,
{
    if i <= 0 {
        0
    } else {
        enclosed_upto(m, on, i - 1) + scan_row(m, on, i - 1, m[i - 1].len() as int).2
    }
}

/// The number of tiles of the field that the trail encloses.
pub open spec fn enclosed(m: Seq<Seq<u8>>, on: Set<(int, int)>) -> int {
    enclosed_upto(m, on, m.len() as int)
}

/// The start: in the last of the first `n` lines that hold a start tile,
/// the first such tile; the top left corner where no line holds one.
pub open spec fn start_upto(ls: Seq<Seq<u8>>, n: int) -> (int, int)
    decreases n,
{
    if n <= 0 {
        (0, 0)
    } else {
        let j = find_from(ls[n - 1], seq![START], 0);
        if j < ls[n - 1].len() {
            (n - 1, j)
        } else {
            start_upto(ls, n - 1)
        }
    }
}

/// Once the walk has stopped it is over for good.
pub proof fn lemma_walk_over(m: Seq<Seq<u8>>, start: (int, int), a: nat, b: nat)
    requires
        walk_stops(m, start, a) || walk(m, start, a) is None,
        a < b,
    ensures
        walk(m, start, b) is None,
    decreases b,
{
    if b > a + 1 {
        lemma_walk_over(m, start, a, (b - 1) as nat);
    }
}

/// The walk stops after one number of steps only.
pub proof fn lemma_walk_stops_once(m: Seq<Seq<u8>>, start: (int, int), a: nat, b: nat)
    requires
        walk_stops(m, start, a),
        walk_stops(m, start, b),
    ensures
        a == b,
{
    if a < b {
        lemma_walk_over(m, start, a, b);
    } else if b < a {
        lemma_walk_over(m, start, b, a);
    }
}

/// A scan counts up only.
pub proof fn lemma_scan_row_grows(m: Seq<Seq<u8>>, on: Set<(int, int)>, i: int, j: int, k: int)
    requires
        0 <= j <= k,
    ensures
        0 <= scan_row(m, on, i, j).0 <= j,
        0 <= scan_row(m, on, i, j).2 <= scan_row(m, on, i, k).2,
    decreases k,
{
    if j > 0 {
        lemma_scan_row_grows(m, on, i, j - 1, j - 1);
    }
    if j < k {
        lemma_scan_row_grows(m, on, i, j, k - 1);
        lemma_scan_row_grows(m, on, i, k - 1, k - 1);
    }
}

/// The count of enclosed tiles grows with the rows.
pub proof fn lemma_enclosed_grows(m: Seq<Seq<u8>>, on: Set<(int, int)>, i: int, k: int)
    requires
        0 <= i <= k,
    ensures
        0 <= enclosed_upto(m, on, i) <= enclosed_upto(m, on, k),
    decreases k,
{
    if i > 0 {
        lemma_enclosed_grows(m, on, i - 1, i - 1);
        lemma_scan_row_grows(m, on, i - 1, 0, m[i - 1].len() as int);
    }
    if i < k {
        lemma_enclosed_grows(m, on, i, k - 1);
        lemma_scan_row_grows(m, on, k - 1, 0, m[k - 1].len() as int);
    }
}

impl Input {
    /// The field as rows of tiles.
    pub open spec fn field(&self) -> Seq<Seq<u8>> {
        rows_of(self.map@)
    }

    /// The start as a point of the plane.
    pub open spec fn origin(&self) -> (int, int) {
        (self.start.0 as int, self.start.1 as int)
    }

    /// This value is what the text says: the field is the lines of the
    /// text, the start is where the text has its start tile.
    pub open spec fn is_parse_of(&self, text: Seq<u8>) -> bool {
        &&& self.field() == lines(text)
        &&& self.origin() == start_upto(lines(text), lines(text).len() as int)
    }

    /// Reads the field. Every text of ASCII characters is a field.
    pub fn from_str(s: &str) -> (r: Result<Input, ParseError>)
        ensures
            match r {
                Ok(v) => ascii_bytes(s@) is Some && v.is_parse_of(ascii_bytes(s@)->0),
                Err(_) => ascii_bytes(s@) is None,
            },
    {
        let bytes = match to_ascii(s) {
            Some(b) => b,
            None => { return Err(ParseError {  }); },
        };
        let map = split_lines(bytes.as_slice());
        let mut start: (usize, usize) = (0, 0);
        let pat: [u8; 1] = [START];
        assert(pat@ =~= seq![START]);
        let mut i: usize = 0;
        while i < map.len()
            invariant
                i <= map@.len(),
                pat@ == seq![START],
                (start.0 as int, start.1 as int) == start_upto(rows_of(map@), i as int),
            decreases map@.len() - i,
        {
            let j = find(map[i].as_slice(), pat.as_slice(), 0);
            if j < map[i].len() {
                start = (i, j);
            }
            i += 1;
        }
        Ok(Input { map, start })
    }

    /// Where the pipe at `to` leads when it is entered from `from`.
    pub fn move_next(&self, from: (usize, usize), to: (usize, usize)) -> (r: Option<(usize, usize)>)
        ensures
            match r {
                Some(p) => next_of(
                    self.field(),
                    (from.0 as int, from.1 as int),
                    (to.0 as int, to.1 as int),
                ) == Some((p.0 as int, p.1 as int)),
                None => next_of(
                    self.field(),
                    (from.0 as int, from.1 as int),
                    (to.0 as int, to.1 as int),
                ) is None,
            },
    {
        if to.0 >= self.map.len() || to.1 >= self.map[to.0].len() {
            return None;
        }
        let c = self.map[to.0][to.1];
        let same_row = from.0 == to.0;
        let same_col = from.1 == to.1;
        let goes_right = same_row && from.1 < to.1 && to.1 - from.1 == 1;
        let goes_left = same_row && from.1 > to.1 && from.1 - to.1 == 1;
        let goes_down = same_col && from.0 < to.0 && to.0 - from.0 == 1;
        let goes_up = same_col && from.0 > to.0 && from.0 - to.0 == 1;
        if goes_right && c == HORIZONTAL {
            Some((to.0, to.1 + 1))
        } else if goes_left && c == HORIZONTAL {
            if to.1 > 0 { Some((to.0, to.1 - 1)) } else { None }
        } else if goes_down && c == VERTICAL {
            Some((to.0 + 1, to.1))
        } else if goes_up && c == VERTICAL {
            if to.0 > 0 { Some((to.0 - 1, to.1)) } else { None }
        } else if goes_right && c == BEND_7 {
            Some((to.0 + 1, to.1))
        } else if goes_up && c == BEND_7 {
            if to.1 > 0 { Some((to.0, to.1 - 1)) } else { None }
        } else if goes_down && c == BEND_L {
            Some((to.0, to.1 + 1))
        } else if goes_left && c == BEND_L {
            if to.0 > 0 { Some((to.0 - 1, to.1)) } else { None }
        } else if goes_right && c == BEND_J {
            if to.0 > 0 { Some((to.0 - 1, to.1)) } else { None }
        } else if goes_down && c == BEND_J {
            if to.1 > 0 { Some((to.0, to.1 - 1)) } else { None }
        } else if goes_left && c == BEND_F {
            Some((to.0 + 1, to.1))
        } else if goes_up && c == BEND_F {
            Some((to.0, to.1 + 1))
        } else {
            None
        }
    }

    /// The first step of the walk.
    pub fn first_step(&self) -> (r: Option<((usize, usize), (usize, usize))>)
        ensures
            match r {
                Some((c, n)) => first_move(self.field(), self.origin()) == Some(
                    ((c.0 as int, c.1 as int), (n.0 as int, n.1 as int)),
                ),
                None => first_move(self.field(), self.origin()) is None,
            },
    {
        let s = self.start;
        proof {
            let m = self.field();
            assert forall|p: (int, int)| p.1 > usize::MAX || p.0 > usize::MAX implies tile(m, p)
                is None by {
                assert(self.map@.len() == self.map.len());
                if 0 <= p.0 < m.len() {
                    assert(self.map@[p.0]@.len() == self.map@[p.0].len());
                }
            }
        }
        if s.1 < usize::MAX {
            if let Some(n) = self.move_next(s, (s.0, s.1 + 1)) {
                return Some(((s.0, s.1 + 1), n));
            }
        }
        if s.0 < usize::MAX {
            if let Some(n) = self.move_next(s, (s.0 + 1, s.1)) {
                return Some(((s.0 + 1, s.1), n));
            }
        }
        if s.1 > 0 {
            if let Some(n) = self.move_next(s, (s.0, s.1 - 1)) {
                return Some(((s.0, s.1 - 1), n));
            }
        }
        if s.0 > 0 {
            if let Some(n) = self.move_next(s, (s.0 - 1, s.1)) {
                return Some(((s.0 - 1, s.1), n));
            }
        }
        None
    }
}

/// The number of steps from the start to the farthest tile of the loop:
/// half the length of the loop, which is two more than the number of steps
/// after which the walk stops.
pub fn part1(input: Input) -> (r: i64)
    requires
        exists|n: nat| walk_stops(input.field(), input.origin(), n) && n + 2 <= i64::MAX,
    ensures
        forall|n: nat| walk_stops(input.field(), input.origin(), n) ==> r == (n + 2) / 2,
{
    let ghost m = input.field();
    let ghost o = input.origin();
    let ghost stop = choose|n: nat| walk_stops(m, o, n) && n + 2 <= i64::MAX;
    let mut steps: i64 = 2;
    let (mut current, mut next) = match input.first_step() {
        Some(p) => p,
        None => {
            proof {
                if stop > 0 {
                    lemma_walk_over(m, o, 0, stop);
                }
            }
            return 1;
        },
    };
    let ghost mut k: nat = 0;
    loop
        invariant
            m == input.field(),
            o == input.origin(),
            walk_stops(m, o, stop),
            stop + 2 <= i64::MAX,
            k <= stop,
            steps == k + 2,
            walk(m, o, k) == Some(
                ((current.0 as int, current.1 as int), (next.0 as int, next.1 as int)),
            ),
        ensures
            walk_stops(m, o, k),
            steps == k + 2,
        decreases stop - k,
    {
        match input.move_next(current, next) {
            Some(n) => {
                proof {
                    if k == stop {
                        assert(false);
                    }
                    k = k + 1;
                }
                current = next;
                next = n;
                steps += 1;
            },
            None => {
                break ;
            },
        }
    }
    proof {
        assert forall|n: nat| walk_stops(m, o, n) implies steps / 2 == (n + 2) / 2 by {
            lemma_walk_stops_once(m, o, n, k);
        }
    }
    steps / 2
}

/// Whether the tile at `(i, j)` is marked.
fn is_marked(marks: &Vec<Vec<bool>>, i: usize, j: usize) -> (r: bool)
    requires
        i < marks@.len(),
        j < marks@[i as int]@.len(),
    ensures
        r == marks@[i as int]@[j as int],
{
    marks[i][j]
}

/// The marks agree with the set on every tile of the field.
pub open spec fn marks_agree(m: Seq<Seq<u8>>, marks: Seq<Vec<bool>>, on: Set<(int, int)>) -> bool {
    &&& marks.len() == m.len()
    &&& forall|i: int| 0 <= i < m.len() ==> (#[trigger] marks[i])@.len() == m[i].len()
    &&& forall|i: int, j: int|
        0 <= i < m.len() && 0 <= j < m[i].len() ==> (#[trigger] marks[i]@[j]) == on.contains((i, j))
}

/// Marks one tile, where it lies in the field.
fn mark(marks: &mut Vec<Vec<bool>>, p: (usize, usize), Ghost(m): Ghost<Seq<Seq<u8>>>, Ghost(on): Ghost<
    Set<(int, int)>,
>)
    requires
        marks_agree(m, old(marks)@, on),
    ensures
        marks_agree(m, final(marks)@, on.insert((p.0 as int, p.1 as int))),
{
    if p.0 < marks.len() && p.1 < marks[p.0].len() {
        let ghost before = marks@;
        let mut row: Vec<bool> = Vec::new();
        let mut j: usize = 0;
        while j < marks[p.0].len()
            invariant
                p.0 < marks@.len(),
                marks@ == before,
                j <= marks@[p.0 as int]@.len(),
                row@.len() == j,
                forall|k: int| 0 <= k < j ==> row@[k] == (k == p.1 || before[p.0 as int]@[k]),
            decreases marks@[p.0 as int]@.len() - j,
        {
            row.push(j == p.1 || marks[p.0][j]);
            j += 1;
        }
        marks[p.0] = row;
        proof {
            let after = marks@;
            let on2 = on.insert((p.0 as int, p.1 as int));
            assert forall|i: int| 0 <= i < m.len() implies (#[trigger] after[i])@.len()
                == m[i].len() by {
                if i != p.0 {
                    assert(after[i] == before[i]);
                }
            }
            assert forall|i: int, j: int| 0 <= i < m.len() && 0 <= j < m[i].len() implies (
            #[trigger] after[i]@[j]) == on2.contains((i, j)) by {
                if i != p.0 {
                    assert(after[i] == before[i]);
                    assert(before[i]@[j] == on.contains((i, j)));
                } else {
                    assert(before[i]@[j] == on.contains((i, j)));
                }
            }
        }
    }
}

/// The number of tiles that the loop encloses: the tiles off the trail of
/// the walk that lie, in their row, behind an odd number of crossings of
/// the trail.
pub fn part2(input: Input) -> (r: i64)
    requires
        exists|n: nat| walk_stops(input.field(), input.origin(), n),
        forall|n: nat|
            walk_stops(input.field(), input.origin(), n) ==> enclosed(
                input.field(),
                trail(input.field(), input.origin(), n),
            ) <= i64::MAX,
    ensures
        forall|n: nat|
            walk_stops(input.field(), input.origin(), n) ==> r == enclosed(
                input.field(),
                trail(input.field(), input.origin(), n),
            ),
{
    let ghost m = input.field();
    let ghost o = input.origin();
    let ghost stop = choose|n: nat| walk_stops(m, o, n);
    // An unmarked copy of the field.
    let mut marks: Vec<Vec<bool>> = Vec::new();
    let mut i: usize = 0;
    while i < input.map.len()
        invariant
            i <= input.map@.len(),
            marks@.len() == i,
            forall|a: int| 0 <= a < i ==> (#[trigger] marks@[a])@.len() == input.map@[a]@.len(),
            forall|a: int, b: int|
                0 <= a < i && 0 <= b < input.map@[a]@.len() ==> !(#[trigger] marks@[a]@[b]),
        decreases input.map@.len() - i,
    {
        let mut row: Vec<bool> = Vec::new();
        let mut j: usize = 0;
        while j < input.map[i].len()
            invariant
                i < input.map@.len(),
                j <= input.map@[i as int]@.len(),
                row@.len() == j,
                forall|b: int| 0 <= b < j ==> !row@[b],
            decreases input.map@[i as int]@.len() - j,
        {
            row.push(false);
            j += 1;
        }
        marks.push(row);
        i += 1;
    }
    assert(marks_agree(m, marks@, Set::<(int, int)>::empty()));
    mark(&mut marks, input.start, Ghost(m), Ghost(Set::<(int, int)>::empty()));
    assert(Set::<(int, int)>::empty().insert(o) =~= trail(m, o, 0));
    let ghost mut k: nat = 0;
    match input.first_step() {
        Some(p) => {
            let (mut current, mut next) = p;
            loop
                invariant
                    m == input.field(),
                    o == input.origin(),
                    walk_stops(m, o, stop),
                    k <= stop,
                    marks_agree(m, marks@, trail(m, o, k)),
                    walk(m, o, k) == Some(
                        ((current.0 as int, current.1 as int), (next.0 as int, next.1 as int)),
                    ),
                ensures
                    walk_stops(m, o, k),
                    marks_agree(m, marks@, trail(m, o, k)),
                decreases stop - k,
            {
                match input.move_next(current, next) {
                    Some(n) => {
                        mark(&mut marks, current, Ghost(m), Ghost(trail(m, o, k)));
                        proof {
                            if k == stop {
                                assert(false);
                            }
                            k = k + 1;
                        }
                        current = next;
                        next = n;
                    },
                    None => {
                        break ;
                    },
                }
            }
        },
        None => {
            proof {
                if stop > 0 {
                    lemma_walk_over(m, o, 0, stop);
                }
                assert(false);
            }
        },
    }
    let ghost on = trail(m, o, k);
    proof {
        assert(enclosed(m, on) <= i64::MAX);
    }
    let mut solution: i64 = 0;
    let mut i: usize = 0;
    while i < input.map.len()
        invariant
            i <= input.map@.len(),
            m == input.field(),
            marks_agree(m, marks@, on),
            enclosed(m, on) <= i64::MAX,
            solution == enclosed_upto(m, on, i as int),
        decreases input.map@.len() - i,
    {
        let mut crossings: usize = 0;
        let mut from_below: bool = false;
        let mut inside: i64 = 0;
        let mut j: usize = 0;
        proof {
            lemma_enclosed_grows(m, on, i + 1, m.len() as int);
            lemma_enclosed_grows(m, on, i as int, i as int);
        }
        while j < input.map[i].len()
            invariant
                i < input.map@.len(),
                j <= input.map@[i as int]@.len(),
                m == input.field(),
                marks_agree(m, marks@, on),
                (crossings as int, from_below, inside as int) == scan_row(m, on, i as int, j as int),
                enclosed_upto(m, on, i + 1) <= i64::MAX,
                enclosed_upto(m, on, i as int) >= 0,
            decreases input.map@[i as int]@.len() - j,
        {
            proof {
                lemma_scan_row_grows(m, on, i as int, j as int, j as int);
                lemma_scan_row_grows(m, on, i as int, j + 1, m[i as int].len() as int);
                lemma_scan_row_grows(m, on, i as int, j + 1, j + 1);
            }
            let c = input.map[i][j];
            if is_marked(&marks, i, j) {
                if c == VERTICAL {
                    crossings += 1;
                } else if c == BEND_F {
                    from_below = true;
                } else if c == BEND_L {
                    from_below = false;
                } else if c == BEND_J {
                    if from_below {
                        crossings += 1;
                    }
                } else if c == BEND_7 || c == START {
                    if !from_below {
                        crossings += 1;
                    }
                }
            } else {
                inside += (crossings % 2) as i64;
            }
            j += 1;
        }
        solution += inside;
        i += 1;
    }
    proof {
        assert forall|n: nat| walk_stops(m, o, n) implies solution == enclosed(m, trail(m, o, n)) by {
            lemma_walk_stops_once(m, o, n, k);
        }
    }
    solution
}

// ----------------------------------------------------------------------
// Reading twice
// ----------------------------------------------------------------------


/// Reading a text twice gives the same value: two fields that one text
/// says have the same tiles and the same start.
pub proof fn lemma_parse_is_unique(a: Input, b: Input, text: Seq<u8>)
    requires
        a.is_parse_of(text),
        b.is_parse_of(text),
    ensures
        a.field() == b.field(),
        a.start == b.start,
{
}

} // verus!
