//! Each line is the history of one value. The first part extrapolates every
//! history by one step forwards, the second by one step backwards, and both
//! add up what they find.

use crate::text::{
    all_i64, ascii_bytes, i64s_of, lines, parse_all_i64, rows_of, split_lines, split_tokens,
    to_ascii, tokens, ParseError,
};
use vstd::prelude::*;

verus! {

/// The histories, one per line.
#[derive(Debug, PartialEq, Eq)]
pub struct Input {
    pub stories: Vec<Vec<i64>>,
}

/// A history as mathematical integers.
pub open spec fn ints(s: Seq<i64>) -> Seq<int> {
    Seq::new(s.len(), |i: int| s[i] as int)
}

/// The differences of neighbours: one value fewer than the history has.
pub open spec fn diffs(s: Seq<int>) -> Seq<int> {
    Seq::new(if s.len() > 0 { (s.len() - 1) as nat } else { 0 }, |i: int| s[i + 1] - s[i])
}

/// Every value is zero.
pub open spec fn all_zero(s: Seq<int>) -> bool {
    forall|i: int| 0 <= i < s.len() ==> #[trigger] s[i] == 0
}

/// The value that follows a history: zero after zeros only, else the last
/// value plus what follows the differences.
pub open spec fn next_value(s: Seq<int>) -> int
    decreases s.len(),
{
    if s.len() == 0 || all_zero(s) {
        0
    } else {
        s.last() + next_value(diffs(s))
    }
}

/// The value that precedes a history: zero before zeros only, else the
/// first value minus what precedes the differences.
pub open spec fn previous_value(s: Seq<int>) -> int
    decreases s.len(),
{
    if s.len() == 0 || all_zero(s) {
        0
    } else {
        s[0] - previous_value(diffs(s))
    }
}

/// Every difference fits 64 bits.
pub open spec fn diffs_fit(s: Seq<int>) -> bool {
    forall|i: int| 0 <= i < diffs(s).len() ==> i64::MIN <= #[trigger] diffs(s)[i] <= i64::MAX
}

/// The value that follows can be computed in 64 bits, level by level.
pub open spec fn next_fits(s: Seq<int>) -> bool
    decreases s.len(),
{
    if s.len() == 0 || all_zero(s) {
        true
    } else {
        &&& diffs_fit(s)
        &&& next_fits(diffs(s))
        &&& i64::MIN <= s.last() + next_value(diffs(s)) <= i64::MAX
    }
}

/// The value that precedes can be computed in 64 bits, level by level.
pub open spec fn previous_fits(s: Seq<int>) -> bool
    decreases s.len(),
{
    if s.len() == 0 || all_zero(s) {
        true
    } else {
        &&& diffs_fit(s)
        &&& previous_fits(diffs(s))
        &&& i64::MIN <= s[0] - previous_value(diffs(s)) <= i64::MAX
    }
}

/// The sum of the values that follow the first `k` histories.
pub open spec fn sum_next(stories: Seq<Vec<i64>>, k: int) -> int
    decreases k,
{
    if k <= 0 {
        0
    } else {
        sum_next(stories, k - 1) + next_value(ints(stories[k - 1]@))
    }
}

/// The sum of the values that precede the first `k` histories.
pub open spec fn sum_previous(stories: Seq<Vec<i64>>, k: int) -> int
    decreases k,
{
    if k <= 0 {
        0
    } else {
        sum_previous(stories, k - 1) + previous_value(ints(stories[k - 1]@))
    }
}

/// Every line of the text is a row of decimal numbers of 64 bits.
pub open spec fn accepts(text: Seq<u8>) -> bool {
    forall|i: int| 0 <= i < lines(text).len() ==> all_i64(tokens(#[trigger] lines(text)[i]))
}

impl Input {
    /// This value is what the text says: one history per line, made of the
    /// numbers of the line.
    pub open spec fn is_parse_of(&self, text: Seq<u8>) -> bool {
        &&& self.stories@.len() == lines(text).len()
        &&& forall|i: int|
            0 <= i < lines(text).len() ==> (#[trigger] self.stories@[i])@ == i64s_of(
                tokens(lines(text)[i]),
            )
    }

    /// Reads the histories. A text is accepted if it is ASCII and each line
    /// holds decimal numbers of 64 bits, separated by white space.
    pub fn from_str(s: &str) -> (r: Result<Input, ParseError>)
        ensures
            match r {
                Ok(v) => ascii_bytes(s@) is Some && accepts(ascii_bytes(s@)->0) && v.is_parse_of(
                    ascii_bytes(s@)->0,
                ),
                Err(_) => ascii_bytes(s@) is None || !accepts(ascii_bytes(s@)->0),
            },
    {
        let bytes = match to_ascii(s) {
            Some(b) => b,
            None => { return Err(ParseError {  }); },
        };
        let ls = split_lines(bytes.as_slice());
        let ghost text = bytes@;
        let mut stories: Vec<Vec<i64>> = Vec::new();
        let mut i: usize = 0;
        while i < ls.len()
            invariant
                i <= ls@.len(),
                rows_of(ls@) == lines(text),
                ascii_bytes(s@) == Some(text),
                stories@.len() == i,
                forall|k: int| 0 <= k < i ==> all_i64(tokens(#[trigger] lines(text)[k])),
                forall|k: int|
                    0 <= k < i ==> (#[trigger] stories@[k])@ == i64s_of(tokens(lines(text)[k])),
            decreases ls@.len() - i,
        {
            assert(ls@[i as int]@ == lines(text)[i as int]);
            let t = split_tokens(ls[i].as_slice());
            match parse_all_i64(&t) {
                Some(v) => {
                    stories.push(v);
                },
                None => {
                    return Err(ParseError {  });
                },
            }
            i += 1;
        }
        Ok(Input { stories })
    }
}

/// The differences of neighbours.
pub fn differences(input: &[i64]) -> (d: Vec<i64>)
    requires
        diffs_fit(ints(input@)),
    ensures
        ints(d@) == diffs(ints(input@)),
{
    let mut d: Vec<i64> = Vec::new();
    let mut k: usize = 1;
    let ghost s = ints(input@);
    while k < input.len()
        invariant
            1 <= k,
            s == ints(input@),
            diffs_fit(s),
            d@.len() == k - 1,
            d@.len() <= diffs(s).len(),
            forall|j: int| 0 <= j < k - 1 ==> #[trigger] d@[j] as int == diffs(s)[j],
        decreases input@.len() - k,
    {
        proof {
            assert(diffs(s)[k - 1] == s[k as int] - s[k - 1]);
            assert(i64::MIN <= diffs(s)[k - 1] <= i64::MAX);
        }
        d.push(input[k] - input[k - 1]);
        k += 1;
    }
    assert(ints(d@) =~= diffs(s));
    d
}

/// Whether every value is zero.
fn is_all_zero(input: &[i64]) -> (b: bool)
    ensures
        b == all_zero(ints(input@)),
{
    let mut k: usize = 0;
    while k < input.len()
        invariant
            k <= input@.len(),
            forall|j: int| 0 <= j < k ==> #[trigger] ints(input@)[j] == 0,
        decreases input@.len() - k,
    {
        if input[k] != 0 {
            assert(ints(input@)[k as int] != 0);
            return false;
        }
        k += 1;
    }
    true
}

/// The value that follows a history.
pub fn get_next(input: &[i64]) -> (r: i64)
    requires
        next_fits(ints(input@)),
    ensures
        r == next_value(ints(input@)),
    decreases input@.len(),
{
    if input.len() == 0 || is_all_zero(input) {
        0
    } else {
        let d = differences(input);
        assert(ints(input@).last() == input@[input@.len() - 1]);
        input[input.len() - 1] + get_next(d.as_slice())
    }
}

/// The value that precedes a history.
pub fn get_previous(input: &[i64]) -> (r: i64)
    requires
        previous_fits(ints(input@)),
    ensures
        r == previous_value(ints(input@)),
    decreases input@.len(),
{
    if input.len() == 0 || is_all_zero(input) {
        0
    } else {
        let d = differences(input);
        input[0] - get_previous(d.as_slice())
    }
}

/// The sum of the values that follow the histories.
pub fn part1(input: Input) -> (r: i64)
    requires
        forall|k: int| 0 <= k < input.stories@.len() ==> next_fits(ints(#[trigger] input.stories@[k]@)),
        forall|k: int|
            0 <= k <= input.stories@.len() ==> i64::MIN <= #[trigger] sum_next(input.stories@, k)
                <= i64::MAX,
    ensures
        r == sum_next(input.stories@, input.stories@.len() as int),
{
    let mut sum: i64 = 0;
    let mut k: usize = 0;
    while k < input.stories.len()
        invariant
            k <= input.stories@.len(),
            forall|j: int|
                0 <= j < input.stories@.len() ==> next_fits(ints(#[trigger] input.stories@[j]@)),
            forall|j: int|
                0 <= j <= input.stories@.len() ==> i64::MIN <= #[trigger] sum_next(
                    input.stories@,
                    j,
                ) <= i64::MAX,
            sum == sum_next(input.stories@, k as int),
        decreases input.stories@.len() - k,
    {
        proof {
            assert(i64::MIN <= sum_next(input.stories@, k + 1) <= i64::MAX);
        }
        sum = sum + get_next(input.stories[k].as_slice());
        k += 1;
    }
    sum
}

/// The sum of the values that precede the histories.
pub fn part2(input: Input) -> (r: i64)
    requires
        forall|k: int|
            0 <= k < input.stories@.len() ==> previous_fits(ints(#[trigger] input.stories@[k]@)),
        forall|k: int|
            0 <= k <= input.stories@.len() ==> i64::MIN <= #[trigger] sum_previous(
                input.stories@,
                k,
            ) <= i64::MAX,
    ensures
        r == sum_previous(input.stories@, input.stories@.len() as int),
{
    let mut sum: i64 = 0;
    let mut k: usize = 0;
    while k < input.stories.len()
        invariant
            k <= input.stories@.len(),
            forall|j: int|
                0 <= j < input.stories@.len() ==> previous_fits(
                    ints(#[trigger] input.stories@[j]@),
                ),
            forall|j: int|
                0 <= j <= input.stories@.len() ==> i64::MIN <= #[trigger] sum_previous(
                    input.stories@,
                    j,
                ) <= i64::MAX,
            sum == sum_previous(input.stories@, k as int),
        decreases input.stories@.len() - k,
    {
        proof {
            assert(i64::MIN <= sum_previous(input.stories@, k + 1) <= i64::MAX);
        }
        sum = sum + get_previous(input.stories[k].as_slice());
        k += 1;
    }
    sum
}

// ----------------------------------------------------------------------
// Reading twice
// ----------------------------------------------------------------------


/// Reading a text twice gives the same value: two reports that one text
/// says have the same histories.
pub proof fn lemma_parse_is_unique(a: Input, b: Input, text: Seq<u8>)
    requires
        a.is_parse_of(text),
        b.is_parse_of(text),
    ensures
        a.stories@.len() == b.stories@.len(),
        forall|i: int| 0 <= i < a.stories@.len() ==> (#[trigger] a.stories@[i])@ == b.stories@[i]@,
{
}

} // verus!
