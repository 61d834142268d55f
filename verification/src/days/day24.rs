//! Hailstones fly through the air, each from a position with a velocity.
//! This module reads them, and computes in whole numbers the terms that
//! say where the paths of two of them cross when seen from above.

use crate::text::{
    ascii_bytes, i64_of, lines, parse_i64, rows_of, split, split_bytes, split_lines, to_ascii,
    trim, trim_bytes, ParseError,
};
use vstd::prelude::*;

verus! {

/// A hailstone: its position and its velocity in three dimensions.
#[derive(Debug, PartialEq, Eq, Clone, Copy)]
pub struct Hailstone {
    pub pos: (i64, i64, i64),
    pub vel: (i64, i64, i64),
}

/// The hailstones.
#[derive(Debug, PartialEq, Eq)]
pub struct Input {
    pub hailstones: Vec<Hailstone>,
}

/// Every piece between the commas of the part is, without the white space
/// around it, a decimal number of 64 bits.
pub open spec fn numbers_accept(part: Seq<u8>) -> bool {
    forall|i: int|
        0 <= i < split(part, seq![44u8]).len() ==> i64_of(
            trim(#[trigger] split(part, seq![44u8])[i]),
        ) is Some
}

/// The number that piece `i` of the part writes.
pub open spec fn number_at(part: Seq<u8>, i: int) -> i64 {
    i64_of(trim(split(part, seq![44u8])[i]))->0
}

/// The first three numbers of the part, if all its pieces are numbers and
/// there are three at least.
pub open spec fn triple_of(part: Seq<u8>) -> Option<(i64, i64, i64)> {
    if numbers_accept(part) && split(part, seq![44u8]).len() >= 3 {
        Some((number_at(part, 0), number_at(part, 1), number_at(part, 2)))
    } else {
        None
    }
}

/// The parts of a line that `@` parts.
pub open spec fn parts_of(line: Seq<u8>) -> Seq<Seq<u8>> {
    split(line, seq![64u8])
}

/// The line writes a hailstone: three numbers at least, an `@`, and three
/// numbers at least.
pub open spec fn hail_accepts(line: Seq<u8>) -> bool {
    &&& parts_of(line).len() >= 2
    &&& triple_of(parts_of(line)[0]) is Some
    &&& triple_of(parts_of(line)[1]) is Some
}

/// Every line of the text writes a hailstone.
pub open spec fn accepts(text: Seq<u8>) -> bool {
    forall|i: int| 0 <= i < lines(text).len() ==> hail_accepts(#[trigger] lines(text)[i])
}

/// Reads the first three numbers of a part.
pub fn read_triple(part: &[u8]) -> (r: Option<(i64, i64, i64)>)
    ensures
        r == triple_of(part@),
{
    let comma: [u8; 1] = [44];
    assert(comma@ =~= seq![44u8]);
    let pieces = split_bytes(part, comma.as_slice());
    let ghost p = split(part@, seq![44u8]);
    let mut v: Vec<i64> = Vec::new();
    let mut i: usize = 0;
    while i < pieces.len()
        invariant
            i <= pieces@.len(),
            rows_of(pieces@) == p,
            p == split(part@, seq![44u8]),
            v@.len() == i,
            forall|k: int| 0 <= k < i ==> i64_of(trim(#[trigger] p[k])) == Some(v@[k]),
        decreases pieces@.len() - i,
    {
        assert(pieces@[i as int]@ == p[i as int]);
        assert(rows_of(pieces@).len() == pieces@.len());
        let t = trim_bytes(pieces[i].as_slice());
        match parse_i64(t.as_slice()) {
            Some(n) => {
                v.push(n);
            },
            None => {
                assert(i64_of(trim(p[i as int])) is None);
                return None;
            },
        }
        i += 1;
    }
    assert(rows_of(pieces@).len() == pieces@.len());
    if v.len() >= 3 {
        Some((v[0], v[1], v[2]))
    } else {
        None
    }
}

impl Hailstone {
    /// This hailstone is what the line says.
    pub open spec fn is_parse_of(&self, line: Seq<u8>) -> bool {
        &&& Some(self.pos) == triple_of(parts_of(line)[0])
        &&& Some(self.vel) == triple_of(parts_of(line)[1])
    }

    /// Reads a hailstone from the bytes of its line.
    pub fn read(line: &[u8]) -> (r: Option<Hailstone>)
        ensures
            match r {
                Some(h) => hail_accepts(line@) && h.is_parse_of(line@),
                None => !hail_accepts(line@),
            },
    {
        let at: [u8; 1] = [64];
        assert(at@ =~= seq![64u8]);
        let parts = split_bytes(line, at.as_slice());
        assert(rows_of(parts@).len() == parts@.len());
        if parts.len() < 2 {
            return None;
        }
        assert(parts@[0]@ == parts_of(line@)[0]);
        assert(parts@[1]@ == parts_of(line@)[1]);
        let pos = match read_triple(parts[0].as_slice()) {
            Some(p) => p,
            None => { return None; },
        };
        let vel = match read_triple(parts[1].as_slice()) {
            Some(v) => v,
            None => { return None; },
        };
        Some(Hailstone { pos, vel })
    }

    /// Reads a hailstone: `19, 13, 30 @ -2, 1, -2`.
    pub fn from_str(s: &str) -> (r: Result<Hailstone, ParseError>)
        ensures
            match r {
                Ok(h) => ascii_bytes(s@) is Some && hail_accepts(ascii_bytes(s@)->0)
                    && h.is_parse_of(ascii_bytes(s@)->0),
                Err(_) => ascii_bytes(s@) is None || !hail_accepts(ascii_bytes(s@)->0),
            },
    {
        match to_ascii(s) {
            Some(b) => match Hailstone::read(b.as_slice()) {
                Some(h) => Ok(h),
                None => Err(ParseError {  }),
            },
            None => Err(ParseError {  }),
        }
    }
}

impl Input {
    /// This value is what the text says: one hailstone for each line.
    pub open spec fn is_parse_of(&self, text: Seq<u8>) -> bool {
        &&& self.hailstones@.len() == lines(text).len()
        &&& forall|i: int|
            0 <= i < lines(text).len() ==> (#[trigger] self.hailstones@[i]).is_parse_of(
                lines(text)[i],
            )
    }

    /// Reads the hailstones. A text is accepted if it is ASCII and each
    /// line writes a hailstone.
    pub fn from_str(s: &str) -> (r: Result<Input, ParseError>)
        ensures
            match r {
                Ok(v) => ascii_bytes(s@) is Some && accepts(ascii_bytes(s@)->0) && v.is_parse_of(
                    ascii_bytes(s@)->0,
                ),
                Err(_) => ascii_bytes(s@) is None || !accepts(ascii_bytes(s@)->0),
            },
    {
        let bytes = match to_ascii(s) {
            Some(b) => b,
            None => { return Err(ParseError {  }); },
        };
        let ghost text = bytes@;
        let ls = split_lines(bytes.as_slice());
        let mut hailstones: Vec<Hailstone> = Vec::new();
        let mut i: usize = 0;
        while i < ls.len()
            invariant
                i <= ls@.len(),
                rows_of(ls@) == lines(text),
                ascii_bytes(s@) == Some(text),
                hailstones@.len() == i,
                forall|k: int| 0 <= k < i ==> hail_accepts(#[trigger] lines(text)[k]),
                forall|k: int|
                    0 <= k < i ==> (#[trigger] hailstones@[k]).is_parse_of(lines(text)[k]),
            decreases ls@.len() - i,
        {
            assert(ls@[i as int]@ == lines(text)[i as int]);
            match Hailstone::read(ls[i].as_slice()) {
                Some(h) => {
                    hailstones.push(h);
                },
                None => {
                    proof {
                        assert(rows_of(ls@).len() == ls@.len());
                        assert(!hail_accepts(lines(text)[i as int]));
                    }
                    return Err(ParseError {  });
                },
            }
            i += 1;
        }
        Ok(Input { hailstones })
    }
}

// ----------------------------------------------------------------------
// Where two paths cross
// ----------------------------------------------------------------------

/// The number fits 64 bits with a sign.
pub open spec fn fits(x: int) -> bool {
    i64::MIN <= x <= i64::MAX
}

/// The cross product of the two velocities seen from above. It is zero
/// where the paths are parallel.
pub open spec fn denominator(h1: Hailstone, h2: Hailstone) -> int {
    h1.vel.0 * h2.vel.1 - h1.vel.1 * h2.vel.0
}

/// The time at which the first hailstone is where the paths cross, times
/// the denominator.
pub open spec fn first_time_term(h1: Hailstone, h2: Hailstone) -> int {
    (h2.pos.0 - h1.pos.0) * h2.vel.1 - (h2.pos.1 - h1.pos.1) * h2.vel.0
}

/// The time at which the second hailstone is where the paths cross, times
/// the denominator.
pub open spec fn second_time_term(h1: Hailstone, h2: Hailstone) -> int {
    (h2.pos.0 - h1.pos.0) * h1.vel.1 - (h2.pos.1 - h1.pos.1) * h1.vel.0
}

/// Every product and difference on the way to the three terms fits 64
/// bits; those of the two times need not where the paths are parallel.
pub open spec fn terms_fit(h1: Hailstone, h2: Hailstone) -> bool {
    &&& fits(h1.vel.0 * h2.vel.1)
    &&& fits(h1.vel.1 * h2.vel.0)
    &&& fits(denominator(h1, h2))
    &&& denominator(h1, h2) != 0 ==> {
        &&& fits(h2.pos.0 - h1.pos.0)
        &&& fits(h2.pos.1 - h1.pos.1)
        &&& fits((h2.pos.0 - h1.pos.0) * h2.vel.1)
        &&& fits((h2.pos.1 - h1.pos.1) * h2.vel.0)
        &&& fits(first_time_term(h1, h2))
        &&& fits((h2.pos.0 - h1.pos.0) * h1.vel.1)
        &&& fits((h2.pos.1 - h1.pos.1) * h1.vel.0)
        &&& fits(second_time_term(h1, h2))
    }
}

/// The product of two numbers of 64 bits.
fn product(a: i64, b: i64) -> (r: i128)
    ensures
        r == a * b,
        -0x4000_0000_0000_0000_0000_0000_0000_0000 <= r <= 0x4000_0000_0000_0000_0000_0000_0000_0000,
{
    assert(-0x4000_0000_0000_0000_0000_0000_0000_0000 <= a * b
        <= 0x4000_0000_0000_0000_0000_0000_0000_0000) by (nonlinear_arith)
        requires
            -0x8000_0000_0000_0000 <= a <= 0x8000_0000_0000_0000,
            -0x8000_0000_0000_0000 <= b <= 0x8000_0000_0000_0000,
    ;
    (a as i128) * (b as i128)
}

/// Whether the number fits 64 bits with a sign.
fn in_reach(x: i128) -> (r: bool)
    ensures
        r == fits(x as int),
{
    -0x8000_0000_0000_0000 <= x && x <= 0x7fff_ffff_ffff_ffff
}

/// Whether the three terms of two hailstones can be computed in 64 bits.
pub fn terms_are_in_reach(h1: &Hailstone, h2: &Hailstone) -> (r: bool)
    ensures
        r == terms_fit(*h1, *h2),
{
    let a = product(h1.vel.0, h2.vel.1);
    let b = product(h1.vel.1, h2.vel.0);
    if !in_reach(a) || !in_reach(b) || !in_reach(a - b) {
        return false;
    }
    if a - b == 0 {
        return true;
    }
    let dx: i128 = h2.pos.0 as i128 - h1.pos.0 as i128;
    let dy: i128 = h2.pos.1 as i128 - h1.pos.1 as i128;
    if !in_reach(dx) || !in_reach(dy) {
        return false;
    }
    let across = product(dx as i64, h2.vel.1);
    let along = product(dy as i64, h2.vel.0);
    let across_own = product(dx as i64, h1.vel.1);
    let along_own = product(dy as i64, h1.vel.0);
    in_reach(across) && in_reach(along) && in_reach(across - along) && in_reach(across_own)
        && in_reach(along_own) && in_reach(across_own - along_own)
}

/// The three terms that say where the paths of two hailstones cross when
/// seen from above: the denominator and the two times, each times the
/// denominator. Paths that are parallel have none.
pub fn crossing_terms(h1: &Hailstone, h2: &Hailstone) -> (r: Option<(i64, i64, i64)>)
    requires
        terms_fit(*h1, *h2),
    ensures
        r == if denominator(*h1, *h2) == 0 {
            None
        } else {
            Some(
                (
                    denominator(*h1, *h2) as i64,
                    first_time_term(*h1, *h2) as i64,
                    second_time_term(*h1, *h2) as i64,
                ),
            )
        },
{
    let (x1, y1, _) = h1.pos;
    let (vx1, vy1, _) = h1.vel;
    let (x2, y2, _) = h2.pos;
    let (vx2, vy2, _) = h2.vel;
    let denominator = vx1 * vy2 - vy1 * vx2;
    if denominator == 0 {
        return None;
    }
    let t = (x2 - x1) * vy2 - (y2 - y1) * vx2;
    let s = (x2 - x1) * vy1 - (y2 - y1) * vx1;
    Some((denominator, t, s))
}

// ----------------------------------------------------------------------
// Reading twice
// ----------------------------------------------------------------------


/// Reading a text twice gives the same value: two lists of hailstones
/// that one text says are equal.
pub proof fn lemma_parse_is_unique(a: Input, b: Input, text: Seq<u8>)
    requires
        a.is_parse_of(text),
        b.is_parse_of(text),
    ensures
        a.hailstones@ == b.hailstones@,
{
    assert forall|i: int| 0 <= i < a.hailstones@.len() implies a.hailstones@[i]
        == b.hailstones@[i] by {
        let x = a.hailstones@[i];
        let y = b.hailstones@[i];
        assert(x.is_parse_of(lines(text)[i]));
        assert(y.is_parse_of(lines(text)[i]));
        assert(Some(x.pos) == Some(y.pos));
        assert(Some(x.vel) == Some(y.vel));
    }
    assert(a.hailstones@ =~= b.hailstones@);
}

} // verus!
