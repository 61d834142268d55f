//! An engine schematic holds numbers and symbols on a grid. The first part
//! adds up the numbers that stand next to a symbol. The second part looks
//! at every `*` with exactly two numbers next to it and adds up the
//! products of such pairs.

use crate::text::{ascii_bytes, lines, rows_of, split_lines, to_ascii, ParseError};
use vstd::prelude::*;

verus! {

/// A number of the schematic: its value, and the positions of its first
/// and last digit as row and column.
#[derive(Debug, PartialEq, Eq)]
pub struct Number {
    pub n: i32,
    pub pos: [(i32, i32); 2],
}

/// A symbol of the schematic and its position.
#[derive(Debug, PartialEq, Eq)]
pub struct Symbol {
    pub c: char,
    pub pos: (i32, i32),
}

/// The numbers and the symbols of the schematic, in reading order.
#[derive(Debug, PartialEq, Eq)]
pub struct Input {
    pub numbers: Vec<Number>,
    pub symbols: Vec<Symbol>,
}

/// What a scan of the text has found so far: the value and the count of
/// the digits of the number that it is reading, the numbers and symbols
/// that it has read, and whether all of it could be written down.
pub struct Scan {
    pub n: int,
    pub digits: int,
    pub numbers: Seq<(i32, (i32, i32), (i32, i32))>,
    pub symbols: Seq<(char, (i32, i32))>,
    pub ok: bool,
}

/// A value fits 32 bits with a sign and is not negative.
pub open spec fn small(v: int) -> bool {
    0 <= v <= i32::MAX
}

/// The scan after it has closed the number that it was reading, if that
/// number is not zero. The number ends before column `end` of row `i`. A
/// number of value zero is not written down, and its digits go on counting
/// for the number that follows.
pub open spec fn close_number(st: Scan, i: int, end: int) -> Scan {
    if st.n != 0 {
        Scan {
            n: 0,
            digits: 0,
            numbers: st.numbers.push(
                (st.n as i32, (i as i32, (end - st.digits) as i32), (i as i32, (end - 1) as i32)),
            ),
            ok: st.ok && small(i) && small(end - st.digits) && small(end - 1),
            ..st
        }
    } else {
        st
    }
}

/// The scan after the byte `c` at row `i` and column `j`.
pub open spec fn scan_byte(st: Scan, i: int, j: int, c: u8) -> Scan {
    if 48 <= c <= 57 {
        Scan {
            n: st.n * 10 + (c - 48),
            digits: st.digits + 1,
            ok: st.ok && st.n * 10 + (c - 48) <= i32::MAX && st.digits < usize::MAX,
            ..st
        }
    } else {
        let marked = if c != 46 {
            Scan {
                symbols: st.symbols.push((c as char, (i as i32, j as i32))),
                ok: st.ok && small(i) && small(j),
                ..st
            }
        } else {
            st
        };
        close_number(marked, i, j)
    }
}

/// The scan after the first `j` bytes of the line in row `i`.
pub open spec fn scan_line(st: Scan, i: int, line: Seq<u8>, j: int) -> Scan
    decreases j,
{
    if j <= 0 {
        st
    } else {
        scan_byte(scan_line(st, i, line, j - 1), i, j - 1, line[j - 1])
    }
}

/// The scan after the first `k` lines of the text. The end of a line
/// closes the number that is being read.
pub open spec fn scan_text(ls: Seq<Seq<u8>>, k: int) -> Scan
    decreases k,
{
    if k <= 0 {
        Scan { n: 0, digits: 0, numbers: Seq::empty(), symbols: Seq::empty(), ok: true }
    } else {
        let line = ls[k - 1];
        close_number(
            scan_line(scan_text(ls, k - 1), k - 1, line, line.len() as int),
            k - 1,
            line.len() as int,
        )
    }
}

/// The scan of the whole text.
pub open spec fn scan(text: Seq<u8>) -> Scan {
    scan_text(lines(text), lines(text).len() as int)
}

/// Every number and position of the text can be written down: the numbers
/// and positions fit 32 bits, and the count of digits fits the size type.
pub open spec fn accepts(text: Seq<u8>) -> bool {
    scan(text).ok
}

/// A scan that has failed stays failed.
pub proof fn lemma_failed_line(st: Scan, i: int, line: Seq<u8>, j: int)
    requires
        !st.ok,
    ensures
        !scan_line(st, i, line, j).ok,
    decreases j,
{
    if j > 0 {
        lemma_failed_line(st, i, line, j - 1);
    }
}

/// A scan that has failed stays failed to the end of the text.
pub proof fn lemma_failed_text(ls: Seq<Seq<u8>>, a: int, b: int)
    requires
        0 <= a <= b,
        !scan_text(ls, a).ok,
    ensures
        !scan_text(ls, b).ok,
    decreases b,
{
    if a < b {
        lemma_failed_text(ls, a, b - 1);
        lemma_failed_line(scan_text(ls, b - 1), b - 1, ls[b - 1], ls[b - 1].len() as int);
    }
}

/// What a list of numbers holds.
pub open spec fn numbers_of(v: Seq<Number>) -> Seq<(i32, (i32, i32), (i32, i32))> {
    Seq::new(v.len(), |k: int| (v[k].n, v[k].pos@[0], v[k].pos@[1]))
}

/// What a list of symbols holds.
pub open spec fn symbols_of(v: Seq<Symbol>) -> Seq<(char, (i32, i32))> {
    Seq::new(v.len(), |k: int| (v[k].c, v[k].pos))
}

impl Input {
    /// This value is what the text says.
    pub open spec fn is_parse_of(&self, text: Seq<u8>) -> bool {
        &&& numbers_of(self.numbers@) == scan(text).numbers
        &&& symbols_of(self.symbols@) == scan(text).symbols
    }

    /// Reads a schematic. Digits in a row make a number, a dot is nothing,
    /// and every other byte is a symbol. A text is accepted if it is ASCII
    /// and its numbers and positions fit 32 bits.
    pub fn from_str(s: &str) -> (r: Result<Input, ParseError>)
        ensures
            match r {
                Ok(v) => ascii_bytes(s@) is Some && accepts(ascii_bytes(s@)->0) && v.is_parse_of(
                    ascii_bytes(s@)->0,
                ),
                Err(_) => ascii_bytes(s@) is None || !accepts(ascii_bytes(s@)->0),
            },
    {
        let bytes = match to_ascii(s) {
            Some(b) => b,
            None => { return Err(ParseError {  }); },
        };
        let ghost text = bytes@;
        let ls = split_lines(bytes.as_slice());
        let ghost rows = lines(text);
        let mut numbers: Vec<Number> = Vec::new();
        let mut symbols: Vec<Symbol> = Vec::new();
        let mut n: i32 = 0;
        let mut digits: usize = 0;
        let mut i: usize = 0;
        while i < ls.len()
            invariant
                i <= ls@.len(),
                rows_of(ls@) == rows,
                rows == lines(text),
                ascii_bytes(s@) == Some(text),
                scan_text(rows, i as int).ok,
                scan_text(rows, i as int).n == n,
                scan_text(rows, i as int).digits == digits,
                scan_text(rows, i as int).numbers == numbers_of(numbers@),
                scan_text(rows, i as int).symbols == symbols_of(symbols@),
                n >= 0,
            decreases ls@.len() - i,
        {
            let line = &ls[i];
            assert(line@ == rows[i as int]);
            assert(rows.len() == ls@.len());
            let ghost start = scan_text(rows, i as int);
            let mut j: usize = 0;
            while j < line.len()
                invariant
                    j <= line@.len(),
                    i < rows.len(),
                    line@ == rows[i as int],
                    rows == lines(text),
                    ascii_bytes(s@) == Some(text),
                    start == scan_text(rows, i as int),
                    scan_line(start, i as int, line@, j as int).ok,
                    scan_line(start, i as int, line@, j as int).n == n,
                    scan_line(start, i as int, line@, j as int).digits == digits,
                    scan_line(start, i as int, line@, j as int).numbers == numbers_of(numbers@),
                    scan_line(start, i as int, line@, j as int).symbols == symbols_of(symbols@),
                        n >= 0,
                decreases line@.len() - j,
            {
                let c = line[j];
                let ghost before = scan_line(start, i as int, line@, j as int);
                let ghost after = scan_line(start, i as int, line@, j + 1);
                assert(after == scan_byte(before, i as int, j as int, c));
                let mut failed = false;
                if 48 <= c && c <= 57 {
                    let next: i64 = n as i64 * 10 + (c - 48) as i64;
                    if next > 0x7fff_ffff || digits == usize::MAX {
                        failed = true;
                    } else {
                        n = next as i32;
                        digits += 1;
                    }
                } else {
                    if c != 46 {
                        if i > 0x7fff_ffff || j > 0x7fff_ffff {
                            failed = true;
                        } else {
                            symbols.push(Symbol { c: c as char, pos: (i as i32, j as i32) });
                            assert(symbols_of(symbols@) =~= before.symbols.push(
                                (c as char, (i as i32, j as i32)),
                            ));
                        }
                    }
                    if !failed && n != 0 {
                        if i > 0x7fff_ffff || digits > j || j < 1 || j - digits > 0x7fff_ffff || j
                            - 1 > 0x7fff_ffff {
                            failed = true;
                        } else {
                            numbers.push(
                                Number {
                                    n,
                                    pos: [
                                        (i as i32, (j - digits) as i32),
                                        (i as i32, (j - 1) as i32),
                                    ],
                                },
                            );
                            assert(numbers_of(numbers@) =~= before.numbers.push(
                                (
                                    n,
                                    (i as i32, (j - digits) as i32),
                                    (i as i32, (j - 1) as i32),
                                ),
                            ));
                            n = 0;
                            digits = 0;
                        }
                    }
                }
                if failed {
                    proof {
                        assert(!after.ok);
                        lemma_failed_line(after, i as int, line@, line@.len() as int);
                        lemma_line_rest(start, i as int, line@, j + 1, line@.len() as int);
                        let done = scan_line(start, i as int, line@, line@.len() as int);
                        assert(!done.ok);
                        assert(!scan_text(rows, i + 1).ok);
                        lemma_failed_text(rows, i + 1, rows.len() as int);
                    }
                    return Err(ParseError {  });
                }
                j += 1;
            }
            let ghost done = scan_line(start, i as int, line@, line@.len() as int);
            if n != 0 {
                if i > 0x7fff_ffff || digits > line.len() || line.len() < 1 || line.len() - digits
                    > 0x7fff_ffff || line.len() - 1 > 0x7fff_ffff {
                    proof {
                        assert(!scan_text(rows, i + 1).ok);
                        lemma_failed_text(rows, i + 1, rows.len() as int);
                    }
                    return Err(ParseError {  });
                }
                let end = line.len();
                numbers.push(
                    Number {
                        n,
                        pos: [(i as i32, (end - digits) as i32), (i as i32, (end - 1) as i32)],
                    },
                );
                assert(numbers_of(numbers@) =~= done.numbers.push(
                    (n, (i as i32, (end - digits) as i32), (i as i32, (end - 1) as i32)),
                ));
                n = 0;
                digits = 0;
            }
            i += 1;
        }
        Ok(Input { numbers, symbols })
    }
}

/// A scan that has failed at a byte of a line has failed at every later
/// byte.
proof fn lemma_line_rest(st: Scan, i: int, line: Seq<u8>, a: int, b: int)
    requires
        0 <= a <= b,
        !scan_line(st, i, line, a).ok,
    ensures
        !scan_line(st, i, line, b).ok,
    decreases b,
{
    if a < b {
        lemma_line_rest(st, i, line, a, b - 1);
    }
}

/// The position lies in the frame of the number: the box that reaches one
/// row and one column beyond the number on every side.
pub open spec fn near(number: Number, p: (i32, i32)) -> bool {
    &&& number.pos@[0].0 - 1 <= p.0 <= number.pos@[1].0 + 1
    &&& number.pos@[0].1 - 1 <= p.1 <= number.pos@[1].1 + 1
}

/// The positions of row `i` from column `y0` to column `y1`.
pub open spec fn row_cells(i: int, y0: int, y1: int) -> Seq<(i32, i32)>
    decreases y1 - y0 + 1,
{
    if y1 < y0 {
        Seq::empty()
    } else {
        row_cells(i, y0, y1 - 1).push((i as i32, y1 as i32))
    }
}

/// The positions of the box from row `x0` to row `x1` and from column `y0`
/// to column `y1`, row by row.
pub open spec fn box_cells(x0: int, x1: int, y0: int, y1: int) -> Seq<(i32, i32)>
    decreases x1 - x0 + 1,
{
    if x1 < x0 {
        Seq::empty()
    } else {
        box_cells(x0, x1 - 1, y0, y1) + row_cells(x1, y0, y1)
    }
}

/// The frame of a number can be written in 32 bits.
pub open spec fn frame_fits(number: Number) -> bool {
    &&& i32::MIN < number.pos@[0].0
    &&& i32::MIN < number.pos@[0].1
    &&& number.pos@[1].0 < i32::MAX
    &&& number.pos@[1].1 < i32::MAX
}

/// A symbol lies in the frame of the number.
pub open spec fn touches_symbol(number: Number, symbols: Seq<Symbol>) -> bool {
    exists|k: int| 0 <= k < symbols.len() && near(number, #[trigger] symbols[k].pos)
}

/// The sum of those of the first `k` numbers that have a symbol in their
/// frame.
pub open spec fn part_sum(numbers: Seq<Number>, symbols: Seq<Symbol>, k: int) -> int
    decreases k,
{
    if k <= 0 {
        0
    } else {
        part_sum(numbers, symbols, k - 1) + if touches_symbol(numbers[k - 1], symbols) {
            numbers[k - 1].n as int
        } else {
            0
        }
    }
}

/// How many of the first `k` numbers have the position in their frame.
pub open spec fn count_near(numbers: Seq<Number>, p: (i32, i32), k: int) -> int
    decreases k,
{
    if k <= 0 {
        0
    } else {
        count_near(numbers, p, k - 1) + if near(numbers[k - 1], p) {
            1int
        } else {
            0int
        }
    }
}

/// The product of those of the first `k` numbers that have the position in
/// their frame.
pub open spec fn product_near(numbers: Seq<Number>, p: (i32, i32), k: int) -> int
    decreases k,
{
    if k <= 0 {
        1
    } else {
        product_near(numbers, p, k - 1) * if near(numbers[k - 1], p) {
            numbers[k - 1].n as int
        } else {
            1
        }
    }
}

/// What a symbol adds to the answer of the second part: a `*` with exactly
/// two numbers around it adds their product, and every other symbol adds
/// nothing.
pub open spec fn gear_ratio(numbers: Seq<Number>, s: Symbol) -> int {
    if s.c == '*' && count_near(numbers, s.pos, numbers.len() as int) == 2 {
        product_near(numbers, s.pos, numbers.len() as int)
    } else {
        0
    }
}

/// The sum of what the first `k` symbols add to the answer of the second
/// part.
pub open spec fn gear_sum(numbers: Seq<Number>, symbols: Seq<Symbol>, k: int) -> int
    decreases k,
{
    if k <= 0 {
        0
    } else {
        gear_sum(numbers, symbols, k - 1) + gear_ratio(numbers, symbols[k - 1])
    }
}

impl Number {
    /// The positions of the frame of the number with all that it encloses,
    /// row by row.
    pub fn around(&self) -> (v: Vec<(i32, i32)>)
        requires
            frame_fits(*self),
        ensures
            v@ == box_cells(
                self.pos@[0].0 - 1,
                self.pos@[1].0 + 1,
                self.pos@[0].1 - 1,
                self.pos@[1].1 + 1,
            ),
    {
        let x0: i64 = self.pos[0].0 as i64 - 1;
        let y0: i64 = self.pos[0].1 as i64 - 1;
        let x1: i64 = self.pos[1].0 as i64 + 1;
        let y1: i64 = self.pos[1].1 as i64 + 1;
        let mut v: Vec<(i32, i32)> = Vec::new();
        let mut i: i64 = x0;
        while i <= x1
            invariant
                x0 <= i,
                i <= x1 + 1 || x1 < x0,
                x1 < x0 ==> i == x0,
                i32::MIN <= x0,
                x1 <= i32::MAX,
                i32::MIN <= y0,
                y1 <= i32::MAX,
                v@ == box_cells(x0 as int, i - 1, y0 as int, y1 as int),
            decreases x1 + 1 - i,
        {
            let ghost rows = v@;
            let mut j: i64 = y0;
            while j <= y1
                invariant
                    y0 <= j,
                    j <= y1 + 1 || y1 < y0,
                    y1 < y0 ==> j == y0,
                    i32::MIN <= i <= i32::MAX,
                    i32::MIN <= y0,
                    y1 <= i32::MAX,
                    v@ == rows + row_cells(i as int, y0 as int, j - 1),
                decreases y1 + 1 - j,
            {
                v.push((i as i32, j as i32));
                proof {
                    assert(v@ =~= rows + row_cells(i as int, y0 as int, j as int));
                }
                j += 1;
            }
            proof {
                if y1 < y0 {
                    assert(row_cells(i as int, y0 as int, y1 as int) =~= row_cells(
                        i as int,
                        y0 as int,
                        j - 1,
                    ));
                }
            }
            i += 1;
        }
        proof {
            if x1 < x0 {
                assert(box_cells(x0 as int, x1 as int, y0 as int, y1 as int) =~= box_cells(
                    x0 as int,
                    i - 1,
                    y0 as int,
                    y1 as int,
                ));
            }
        }
        v
    }

    /// Whether the position lies in the frame of the number.
    pub fn is_near(&self, p: (i32, i32)) -> (r: bool)
        ensures
            r == near(*self, p),
    {
        self.pos[0].0 as i64 - 1 <= p.0 as i64 && p.0 as i64 <= self.pos[1].0 as i64 + 1
            && self.pos[0].1 as i64 - 1 <= p.1 as i64 && p.1 as i64 <= self.pos[1].1 as i64 + 1
    }
}

/// The sum of the numbers that have a symbol in their frame.
pub fn part1(input: Input) -> (r: i32)
    requires
        forall|k: int|
            0 <= k <= input.numbers@.len() ==> i32::MIN <= #[trigger] part_sum(
                input.numbers@,
                input.symbols@,
                k,
            ) <= i32::MAX,
    ensures
        r == part_sum(input.numbers@, input.symbols@, input.numbers@.len() as int),
{
    let mut sum: i32 = 0;
    let mut k: usize = 0;
    while k < input.numbers.len()
        invariant
            k <= input.numbers@.len(),
            forall|j: int|
                0 <= j <= input.numbers@.len() ==> i32::MIN <= #[trigger] part_sum(
                    input.numbers@,
                    input.symbols@,
                    j,
                ) <= i32::MAX,
            sum == part_sum(input.numbers@, input.symbols@, k as int),
        decreases input.numbers@.len() - k,
    {
        let number = &input.numbers[k];
        let mut found = false;
        let mut s: usize = 0;
        while s < input.symbols.len() && !found
            invariant
                s <= input.symbols@.len(),
                *number == input.numbers@[k as int],
                found ==> touches_symbol(*number, input.symbols@),
                !found ==> forall|j: int|
                    0 <= j < s ==> !near(*number, #[trigger] input.symbols@[j].pos),
            decreases input.symbols@.len() - s, if found { 0int } else { 1int },
        {
            if number.is_near(input.symbols[s].pos) {
                found = true;
            } else {
                s += 1;
            }
        }
        proof {
            assert(i32::MIN <= part_sum(input.numbers@, input.symbols@, k + 1) <= i32::MAX);
        }
        if found {
            sum = sum + number.n;
        }
        k += 1;
    }
    sum
}

/// The sum of the products of the pairs of numbers around a `*`.
pub fn part2(input: Input) -> (r: i32)
    requires
        forall|k: int|
            0 <= k <= input.symbols@.len() ==> i32::MIN <= #[trigger] gear_sum(
                input.numbers@,
                input.symbols@,
                k,
            ) <= i32::MAX,
        forall|s: int, k: int|
            0 <= s < input.symbols@.len() && 0 <= k <= input.numbers@.len() ==> i32::MIN
                <= #[trigger] product_near(input.numbers@, input.symbols@[s].pos, k) <= i32::MAX,
    ensures
        r == gear_sum(input.numbers@, input.symbols@, input.symbols@.len() as int),
{
    let mut sum: i32 = 0;
    let mut s: usize = 0;
    while s < input.symbols.len()
        invariant
            s <= input.symbols@.len(),
            forall|k: int|
                0 <= k <= input.symbols@.len() ==> i32::MIN <= #[trigger] gear_sum(
                    input.numbers@,
                    input.symbols@,
                    k,
                ) <= i32::MAX,
            forall|s: int, k: int|
                0 <= s < input.symbols@.len() && 0 <= k <= input.numbers@.len() ==> i32::MIN
                    <= #[trigger] product_near(input.numbers@, input.symbols@[s].pos, k)
                    <= i32::MAX,
            sum == gear_sum(input.numbers@, input.symbols@, s as int),
        decreases input.symbols@.len() - s,
    {
        let symbol = &input.symbols[s];
        proof {
            assert(i32::MIN <= gear_sum(input.numbers@, input.symbols@, s + 1) <= i32::MAX);
        }
        if symbol.c == '*' {
            let pos = symbol.pos;
            let mut count: usize = 0;
            let mut product: i32 = 1;
            let mut k: usize = 0;
            while k < input.numbers.len()
                invariant
                    k <= input.numbers@.len(),
                    s < input.symbols@.len(),
                    pos == input.symbols@[s as int].pos,
                    forall|s: int, k: int|
                        0 <= s < input.symbols@.len() && 0 <= k <= input.numbers@.len()
                            ==> i32::MIN <= #[trigger] product_near(
                            input.numbers@,
                            input.symbols@[s].pos,
                            k,
                        ) <= i32::MAX,
                    count == count_near(input.numbers@, pos, k as int),
                    count <= k,
                    product == product_near(input.numbers@, pos, k as int),
                decreases input.numbers@.len() - k,
            {
                proof {
                    assert(i32::MIN <= product_near(
                        input.numbers@,
                        input.symbols@[s as int].pos,
                        k + 1,
                    ) <= i32::MAX);
                }
                if input.numbers[k].is_near(pos) {
                    count += 1;
                    product = product * input.numbers[k].n;
                }
                k += 1;
            }
            if count == 2 {
                sum = sum + product;
            }
        }
        s += 1;
    }
    sum
}

// ----------------------------------------------------------------------
// Reading twice
// ----------------------------------------------------------------------


/// Reading a text twice gives the same value: two schematics that one
/// text says have the same numbers and symbols.
pub proof fn lemma_parse_is_unique(a: Input, b: Input, text: Seq<u8>)
    requires
        a.is_parse_of(text),
        b.is_parse_of(text),
    ensures
        numbers_of(a.numbers@) == numbers_of(b.numbers@),
        symbols_of(a.symbols@) == symbols_of(b.symbols@),
{
}

} // verus!
