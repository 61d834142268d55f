//! A dig plan walks round a lagoon, trench by trench. Both parts ask how
//! many cubic metres the lagoon holds: the first reads the direction and
//! the length of each trench as written, the second reads both out of the
//! colour code at the end of the line.

use crate::geometry::Direction;
use crate::text::{
    ascii_bytes, copy_range, find, find_from, i64_in, i64_of, lines, parse_i64, parse_i64_radix,
    rows_of, split_lines, split_tokens, to_ascii, tokens, ParseError,
};
use vstd::prelude::*;

verus! {

/// One trench of the plan: where it leads and how long it is.
#[derive(Debug, PartialEq, Eq, Structural, Clone, Copy)]
pub struct Entry {
    pub dir: Direction,
    pub len: i64,
}

/// The plan read in both ways.
#[derive(Debug, PartialEq, Eq)]
pub struct Input {
    pub entries: Vec<Entry>,
    pub actual_entries: Vec<Entry>,
}

/// The direction that a letter names: `R`, `L`, `D` or `U`.
pub open spec fn letter_direction(t: Seq<u8>) -> Option<Direction> {
    if t == seq![82u8] {
        Some(Direction(0, 1))
    } else if t == seq![76u8] {
        Some(Direction(0, -1i32))
    } else if t == seq![68u8] {
        Some(Direction(1, 0))
    } else if t == seq![85u8] {
        Some(Direction(-1i32, 0))
    } else {
        None
    }
}

/// The direction that a digit of the colour code names: right, down, left,
/// up for 0 to 3.
pub open spec fn digit_direction(d: int) -> Option<Direction> {
    if d == 0 {
        Some(Direction(0, 1))
    } else if d == 1 {
        Some(Direction(1, 0))
    } else if d == 2 {
        Some(Direction(0, -1i32))
    } else if d == 3 {
        Some(Direction(-1i32, 0))
    } else {
        None
    }
}

/// The trench that a line writes in its first two words: the letter of the
/// direction and the decimal length.
pub open spec fn entry1_of(line: Seq<u8>) -> Option<Entry> {
    let t = tokens(line);
    if t.len() >= 2 && letter_direction(t[0]) is Some && i64_of(t[1]) is Some {
        Some(Entry { dir: letter_direction(t[0])->0, len: i64_of(t[1])->0 })
    } else {
        None
    }
}

/// The trench that a line writes in its colour code, which follows the
/// first `#`: five hexadecimal digits of length, then the digit of the
/// direction.
pub open spec fn entry2_of(line: Seq<u8>) -> Option<Entry> {
    let at = find_from(line, seq![35u8], 0);
    let code = line.subrange(at + 1, line.len() as int);
    if at < line.len() && code.len() >= 6 && 48 <= code[5] <= 57 && digit_direction(code[5] - 48)
        is Some && i64_in(code.subrange(0, 5), 16) is Some {
        Some(
            Entry {
                dir: digit_direction(code[5] - 48)->0,
                len: i64_in(code.subrange(0, 5), 16)->0,
            },
        )
    } else {
        None
    }
}

/// Every line of the text writes a trench in both ways.
pub open spec fn accepts(text: Seq<u8>) -> bool {
    forall|i: int|
        0 <= i < lines(text).len() ==> entry1_of(#[trigger] lines(text)[i]) is Some && entry2_of(
            lines(text)[i],
        ) is Some
}

/// The corner of the walk before trench `k`: the walk starts at the origin
/// and follows the trenches in turn.
pub open spec fn vertex(entries: Seq<Entry>, k: int) -> (int, int)
    decreases k,
{
    if k <= 0 {
        (0, 0)
    } else {
        let v = vertex(entries, k - 1);
        let e = entries[k - 1];
        (v.0 + e.dir.0 * e.len, v.1 + e.dir.1 * e.len)
    }
}

/// The sum of the shoelace terms of the first `k` edges of a path: for an
/// edge from `p` to `q`, the difference of the rows times the sum of the
/// columns.
pub open spec fn shoelace(p: Seq<(i64, i64)>, k: int) -> int
    decreases k,
{
    if k <= 0 {
        0
    } else {
        shoelace(p, k - 1) + (p[k - 1].0 - p[k].0) * (p[k - 1].1 + p[k].1)
    }
}

/// The area that a path encloses, by the shoelace formula: half the
/// absolute sum over its edges, rounded down. The path is not closed: no
/// edge leads from its last corner back to its first.
pub open spec fn area_of(p: Seq<(i64, i64)>) -> int {
    let s = shoelace(p, p.len() - 1);
    (if s < 0 { -s } else { s }) / 2
}

/// The sum of the lengths of the first `k` trenches.
pub open spec fn perimeter_upto(entries: Seq<Entry>, k: int) -> int
    decreases k,
{
    if k <= 0 {
        0
    } else {
        perimeter_upto(entries, k - 1) + entries[k - 1].len
    }
}

/// The sum of the lengths of all trenches.
pub open spec fn perimeter_of(entries: Seq<Entry>) -> int {
    perimeter_upto(entries, entries.len() as int)
}

/// Every corner of the walk fits 64 bits.
pub open spec fn vertices_fit(entries: Seq<Entry>) -> bool {
    forall|k: int|
        0 <= k <= entries.len() ==> i64::MIN <= (#[trigger] vertex(entries, k)).0 <= i64::MAX
            && i64::MIN <= vertex(entries, k).1 <= i64::MAX
}

/// Every shoelace term of the path and every sum of them fits 64 bits, and
/// so does the absolute value of the whole sum.
pub open spec fn shoelace_fits(p: Seq<(i64, i64)>) -> bool {
    &&& forall|k: int|
        0 <= k < p.len() ==> i64::MIN < #[trigger] shoelace(p, k) <= i64::MAX
    &&& forall|k: int|
        0 < k < p.len() ==> {
            &&& i64::MIN <= p[k - 1].0 - p[k].0 <= i64::MAX
            &&& i64::MIN <= p[k - 1].1 + p[k].1 <= i64::MAX
            &&& i64::MIN <= (p[k - 1].0 - #[trigger] p[k].0) * (p[k - 1].1 + p[k].1) <= i64::MAX
        }
}

/// Every sum of the lengths of the trenches fits 64 bits.
pub open spec fn perimeter_fits(entries: Seq<Entry>) -> bool {
    forall|k: int|
        0 <= k <= entries.len() ==> i64::MIN <= #[trigger] perimeter_upto(entries, k) <= i64::MAX
}

/// The corners of the walk, one before each trench.
pub open spec fn vertices_of(entries: Seq<Entry>) -> Seq<(i64, i64)> {
    Seq::new(entries.len(), |k: int| (vertex(entries, k).0 as i64, vertex(entries, k).1 as i64))
}

/// Half of a number, rounded towards zero.
pub open spec fn half_of(x: int) -> int {
    if x >= 0 {
        x / 2
    } else {
        -((-x) / 2)
    }
}

/// The answer for a plan: the enclosed area, plus half the perimeter, plus
/// one.
pub open spec fn volume_of(entries: Seq<Entry>) -> int {
    area_of(vertices_of(entries)) + half_of(perimeter_of(entries)) + 1
}

/// The answer for a plan can be computed in 64 bits.
pub open spec fn volume_fits(entries: Seq<Entry>) -> bool {
    &&& vertices_fit(entries)
    &&& shoelace_fits(vertices_of(entries))
    &&& perimeter_fits(entries)
    &&& i64::MIN <= volume_of(entries) <= i64::MAX
}

/// Reads the trench of the first two words of a line, if they write one.
pub fn read_entry_part1(line: &[u8]) -> (r: Option<Entry>)
    ensures
        r == entry1_of(line@),
{
    let t = split_tokens(line);
    if t.len() < 2 {
        return None;
    }
    assert(t@[0]@ == tokens(line@)[0]);
    assert(t@[1]@ == tokens(line@)[1]);
    let d = &t[0];
    let dir = if d.len() != 1 {
        assert(letter_direction(d@) is None);
        return None;
    } else if d[0] == 82 {
        assert(d@ =~= seq![82u8]);
        Direction(0, 1)
    } else if d[0] == 76 {
        assert(d@ =~= seq![76u8]);
        Direction(0, -1)
    } else if d[0] == 68 {
        assert(d@ =~= seq![68u8]);
        Direction(1, 0)
    } else if d[0] == 85 {
        assert(d@ =~= seq![85u8]);
        Direction(-1, 0)
    } else {
        assert(letter_direction(d@) is None) by {
            assert(seq![82u8][0] == 82u8);
            assert(seq![76u8][0] == 76u8);
            assert(seq![68u8][0] == 68u8);
            assert(seq![85u8][0] == 85u8);
        }
        return None;
    };
    match parse_i64(t[1].as_slice()) {
        Some(len) => Some(Entry { dir, len }),
        None => None,
    }
}

/// Reads the trench of the colour code of a line, if it writes one.
pub fn read_entry_part2(line: &[u8]) -> (r: Option<Entry>)
    ensures
        r == entry2_of(line@),
{
    let pat: [u8; 1] = [35];
    assert(pat@ =~= seq![35u8]);
    let at = find(line, pat.as_slice(), 0);
    if at >= line.len() || line.len() - at - 1 < 6 {
        return None;
    }
    let ghost code = line@.subrange(at + 1, line@.len() as int);
    let c = line[at + 6];
    assert(c == code[5]);
    if c < 48 || c > 57 {
        return None;
    }
    let dir = if c == 48 {
        Direction(0, 1)
    } else if c == 49 {
        Direction(1, 0)
    } else if c == 50 {
        Direction(0, -1)
    } else if c == 51 {
        Direction(-1, 0)
    } else {
        return None;
    };
    let digits = copy_range(line, at + 1, at + 6);
    assert(digits@ =~= code.subrange(0, 5));
    match parse_i64_radix(digits.as_slice(), 16) {
        Some(len) => Some(Entry { dir, len }),
        None => None,
    }
}

/// The trench of the first two words of a line.
pub fn get_entry_part1(s: &str) -> (e: Entry)
    requires
        ascii_bytes(s@) is Some,
        entry1_of(ascii_bytes(s@)->0) is Some,
    ensures
        Some(e) == entry1_of(ascii_bytes(s@)->0),
{
    let fallback = Entry { dir: Direction(0, 1), len: 0 };
    match to_ascii(s) {
        Some(b) => match read_entry_part1(b.as_slice()) {
            Some(e) => e,
            None => fallback,
        },
        None => fallback,
    }
}

/// The trench of the colour code of a line.
pub fn get_entry_part2(s: &str) -> (e: Entry)
    requires
        ascii_bytes(s@) is Some,
        entry2_of(ascii_bytes(s@)->0) is Some,
    ensures
        Some(e) == entry2_of(ascii_bytes(s@)->0),
{
    let fallback = Entry { dir: Direction(0, 1), len: 0 };
    match to_ascii(s) {
        Some(b) => match read_entry_part2(b.as_slice()) {
            Some(e) => e,
            None => fallback,
        },
        None => fallback,
    }
}

impl Input {
    /// This value is what the text says: line by line, the trench of the
    /// first two words and that of the colour code.
    pub open spec fn is_parse_of(&self, text: Seq<u8>) -> bool {
        &&& self.entries@.len() == lines(text).len()
        &&& self.actual_entries@.len() == lines(text).len()
        &&& forall|i: int|
            0 <= i < lines(text).len() ==> Some(#[trigger] self.entries@[i]) == entry1_of(
                lines(text)[i],
            )
        &&& forall|i: int|
            0 <= i < lines(text).len() ==> Some(#[trigger] self.actual_entries@[i]) == entry2_of(
                lines(text)[i],
            )
    }

    /// Reads a plan. A text is a plan if it is ASCII and each of its lines
    /// writes a trench in both ways.
    pub fn from_str(s: &str) -> (r: Result<Input, ParseError>)
        ensures
            match r {
                Ok(v) => ascii_bytes(s@) is Some && accepts(ascii_bytes(s@)->0) && v.is_parse_of(
                    ascii_bytes(s@)->0,
                ),
                Err(_) => ascii_bytes(s@) is None || !accepts(ascii_bytes(s@)->0),
            },
    {
        let bytes = match to_ascii(s) {
            Some(b) => b,
            None => { return Err(ParseError {  }); },
        };
        let ls = split_lines(bytes.as_slice());
        let ghost text = bytes@;
        assert(ascii_bytes(s@) == Some(text));
        let mut entries: Vec<Entry> = Vec::new();
        let mut actual_entries: Vec<Entry> = Vec::new();
        let mut i: usize = 0;
        while i < ls.len()
            invariant
                i <= ls@.len(),
                rows_of(ls@) == lines(text),
                ascii_bytes(s@) == Some(text),
                entries@.len() == i,
                actual_entries@.len() == i,
                forall|k: int|
                    0 <= k < i ==> Some(#[trigger] entries@[k]) == entry1_of(lines(text)[k]),
                forall|k: int|
                    0 <= k < i ==> Some(#[trigger] actual_entries@[k]) == entry2_of(
                        lines(text)[k],
                    ),
            decreases ls@.len() - i,
        {
            assert(ls@[i as int]@ == lines(text)[i as int]);
            let a = read_entry_part1(ls[i].as_slice());
            let b = read_entry_part2(ls[i].as_slice());
            match (a, b) {
                (Some(x), Some(y)) => {
                    entries.push(x);
                    actual_entries.push(y);
                },
                _ => {
                    return Err(ParseError {  });
                },
            }
            i += 1;
        }
        proof {
            assert forall|k: int| 0 <= k < lines(text).len() implies entry1_of(
                #[trigger] lines(text)[k],
            ) is Some && entry2_of(lines(text)[k]) is Some by {
                assert(Some(entries@[k]) == entry1_of(lines(text)[k]));
                assert(Some(actual_entries@[k]) == entry2_of(lines(text)[k]));
            }
        }
        Ok(Input { entries, actual_entries })
    }
}

/// The corners of the walk that follows the trenches from the origin: one
/// corner before each trench.
pub fn get_polygon_vertices(entries: &Vec<Entry>) -> (v: Vec<(i64, i64)>)
    requires
        vertices_fit(entries@),
    ensures
        v@ == vertices_of(entries@),
{
    let mut v: Vec<(i64, i64)> = Vec::new();
    let mut current: (i64, i64) = (0, 0);
    let mut k: usize = 0;
    while k < entries.len()
        invariant
            k <= entries@.len(),
            vertices_fit(entries@),
            v@.len() == k,
            (current.0 as int, current.1 as int) == vertex(entries@, k as int),
            forall|j: int|
                0 <= j < k ==> (#[trigger] v@[j].0 as int, v@[j].1 as int) == vertex(entries@, j),
        decreases entries@.len() - k,
    {
        v.push(current);
        let e = entries[k];
        proof {
            let n = vertex(entries@, k + 1);
            assert(i64::MIN <= n.0 <= i64::MAX && i64::MIN <= n.1 <= i64::MAX);
            assert(n.0 == current.0 + e.dir.0 * e.len);
            assert(n.1 == current.1 + e.dir.1 * e.len);
        }
        let dr: i128 = (e.dir.0 as i128) * (e.len as i128);
        let dc: i128 = (e.dir.1 as i128) * (e.len as i128);
        current = ((current.0 as i128 + dr) as i64, (current.1 as i128 + dc) as i64);
        k += 1;
    }
    proof {
        assert forall|j: int| 0 <= j < v@.len() implies v@[j] == vertices_of(entries@)[j] by {
            assert((v@[j].0 as int, v@[j].1 as int) == vertex(entries@, j));
        }
        assert(v@ =~= vertices_of(entries@));
    }
    v
}

/// The area that a path encloses, by the shoelace formula.
pub fn calculate_area(polygon: &Vec<(i64, i64)>) -> (a: i64)
    requires
        shoelace_fits(polygon@),
    ensures
        a == area_of(polygon@),
{
    let mut sum: i64 = 0;
    let mut k: usize = 1;
    if polygon.len() == 0 {
        return 0;
    }
    while k < polygon.len()
        invariant
            1 <= k <= polygon@.len(),
            shoelace_fits(polygon@),
            sum == shoelace(polygon@, k - 1),
        decreases polygon@.len() - k,
    {
        let p = polygon[k - 1];
        let q = polygon[k];
        proof {
            assert(i64::MIN <= polygon@[k - 1].0 - polygon@[k as int].0 <= i64::MAX);
            assert(i64::MIN < shoelace(polygon@, k as int) <= i64::MAX);
        }
        sum = sum + (p.0 - q.0) * (p.1 + q.1);
        k += 1;
    }
    proof {
        assert(i64::MIN < shoelace(polygon@, polygon@.len() - 1));
    }
    let abs: i64 = if sum < 0 { -sum } else { sum };
    abs / 2
}

/// The sum of the lengths of all trenches.
pub fn calculate_perimeter(entries: &Vec<Entry>) -> (p: i64)
    requires
        perimeter_fits(entries@),
    ensures
        p == perimeter_of(entries@),
{
    let mut sum: i64 = 0;
    let mut k: usize = 0;
    while k < entries.len()
        invariant
            k <= entries@.len(),
            perimeter_fits(entries@),
            sum == perimeter_upto(entries@, k as int),
        decreases entries@.len() - k,
    {
        proof {
            assert(i64::MIN <= perimeter_upto(entries@, k + 1) <= i64::MAX);
        }
        sum = sum + entries[k].len;
        k += 1;
    }
    sum
}

/// The volume of the lagoon that a plan walks round: the enclosed area,
/// plus half the perimeter, plus one.
pub fn solve(entries: &Vec<Entry>) -> (r: i64)
    requires
        volume_fits(entries@),
    ensures
        r == volume_of(entries@),
{
    let polygon = get_polygon_vertices(entries);
    let a = calculate_area(&polygon);
    let p = calculate_perimeter(entries);
    let half = p / 2;
    ((a as i128) + (half as i128) + 1) as i64
}

/// The volume of the lagoon, with the plan read as written.
pub fn part1(input: Input) -> (r: i64)
    requires
        volume_fits(input.entries@),
    ensures
        r == volume_of(input.entries@),
{
    solve(&input.entries)
}

/// The volume of the lagoon, with the plan read from the colour codes.
pub fn part2(input: Input) -> (r: i64)
    requires
        volume_fits(input.actual_entries@),
    ensures
        r == volume_of(input.actual_entries@),
{
    solve(&input.actual_entries)
}

// ----------------------------------------------------------------------
// Reading twice
// ----------------------------------------------------------------------


/// Reading a text twice gives the same value: two plans that one text
/// says have the same entries of either kind.
pub proof fn lemma_parse_is_unique(a: Input, b: Input, text: Seq<u8>)
    requires
        a.is_parse_of(text),
        b.is_parse_of(text),
    ensures
        a.entries@ == b.entries@,
        a.actual_entries@ == b.actual_entries@,
{
    assert forall|i: int| 0 <= i < a.entries@.len() implies a.entries@[i] == b.entries@[i] by {
        assert(Some(a.entries@[i]) == entry1_of(lines(text)[i]));
        assert(Some(b.entries@[i]) == entry1_of(lines(text)[i]));
    }
    assert forall|i: int| 0 <= i < a.actual_entries@.len() implies a.actual_entries@[i]
        == b.actual_entries@[i] by {
        assert(Some(a.actual_entries@[i]) == entry2_of(lines(text)[i]));
        assert(Some(b.actual_entries@[i]) == entry2_of(lines(text)[i]));
    }
    assert(a.entries@ =~= b.entries@);
    assert(a.actual_entries@ =~= b.actual_entries@);
}

} // verus!
