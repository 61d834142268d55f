//! An initialization sequence is a list of steps, separated by commas. The
//! first part adds up the hash of every step. The second part runs the
//! steps, which put lenses into 256 boxes and take them out again, and adds
//! up the focusing power of the lenses that are left.

use crate::text::{
    ascii_bytes, chars_of, copy_range, find, parse_usize, rows_of, same_bytes, split,
    split_bytes,
    split_once, string_of, to_ascii, usize_of, ParseError,
};
use vstd::prelude::*;
use vstd::string::*;

verus! {

/// The steps of the sequence.
#[derive(Debug, PartialEq, Eq)]
pub struct Input {
    pub strings: Vec<String>,
}

/// A lens in its box: the bytes of its label and its focal length.
pub struct Lens {
    pub label: Vec<u8>,
    pub focal: usize,
}

/// The hash of a string of bytes: for every byte in turn, add the byte,
/// multiply by 17 and keep the remainder of the division by 256.
pub open spec fn hash_of(b: Seq<u8>) -> int
    decreases b.len(),
{
    if b.len() == 0 {
        0
    } else {
        ((hash_of(b.drop_last()) + b.last()) * 17) % 256
    }
}

/// The sum of the hashes of the first `k` strings.
pub open spec fn hash_sum(strings: Seq<String>, k: int) -> int
    decreases k,
{
    if k <= 0 {
        0
    } else {
        hash_sum(strings, k - 1) + hash_of(utf8(strings[k - 1]@))
    }
}

/// The bytes that encode a sequence of characters.
pub open spec fn utf8(s: Seq<char>) -> Seq<u8> {
    vstd::utf8::encode_utf8(s)
}

/// The bytes of `b` without the minus signs.
pub open spec fn without_dashes(b: Seq<u8>) -> Seq<u8>
    decreases b.len(),
{
    if b.len() == 0 {
        b
    } else if b.last() == 45 {
        without_dashes(b.drop_last())
    } else {
        without_dashes(b.drop_last()).push(b.last())
    }
}

/// The index of the first lens with the label, or the number of lenses.
pub open spec fn position(lenses: Seq<(Seq<u8>, int)>, label: Seq<u8>) -> int
    decreases lenses.len(),
{
    if lenses.len() == 0 {
        0
    } else {
        let p = position(lenses.drop_last(), label);
        if p < lenses.len() - 1 {
            p
        } else if lenses.last().0 == label {
            lenses.len() - 1
        } else {
            lenses.len() as int
        }
    }
}

/// The lenses after one step. A step `label=n` gives the lens with that
/// label the focal length `n`, or adds such a lens behind all others. Any
/// other step takes the lens out whose label is the step without its minus
/// signs.
pub open spec fn after_step(lenses: Seq<(Seq<u8>, int)>, step: Seq<u8>) -> Seq<(Seq<u8>, int)> {
    match split_once(step, seq![61u8]) {
        Some((label, n)) => {
            let p = position(lenses, label);
            let f = usize_of(n)->0 as int;
            if p < lenses.len() {
                lenses.update(p, (label, f))
            } else {
                lenses.push((label, f))
            }
        },
        None => {
            let label = without_dashes(step);
            let p = position(lenses, label);
            if p < lenses.len() {
                lenses.remove(p)
            } else {
                lenses
            }
        },
    }
}

/// The lenses after the first `k` steps, in the order in which they were
/// put in. A lens lies in the box that the hash of its label names, behind
/// the lenses of that box that were put in before it.
pub open spec fn after_steps(steps: Seq<String>, k: int) -> Seq<(Seq<u8>, int)>
    decreases k,
{
    if k <= 0 {
        Seq::empty()
    } else {
        after_step(after_steps(steps, k - 1), utf8(steps[k - 1]@))
    }
}

/// Every step that holds an equals sign has a decimal size behind the first
/// one.
pub open spec fn steps_are_valid(steps: Seq<String>) -> bool {
    forall|k: int|
        0 <= k < steps.len() ==> match split_once(utf8((#[trigger] steps[k])@), seq![61u8]) {
            Some((label, n)) => usize_of(n) is Some,
            None => true,
        }
}

/// The number of lenses before index `p` that lie in the box `b`.
pub open spec fn in_box_before(lenses: Seq<(Seq<u8>, int)>, b: int, p: int) -> int
    decreases p,
{
    if p <= 0 {
        0
    } else {
        in_box_before(lenses, b, p - 1) + if hash_of(lenses[p - 1].0) == b {
            1int
        } else {
            0int
        }
    }
}

/// The focusing power of the lens at index `p`: one more than the number of
/// its box, times its slot in the box counted from one, times its focal
/// length.
pub open spec fn lens_power(lenses: Seq<(Seq<u8>, int)>, p: int) -> int {
    let b = hash_of(lenses[p].0);
    (b + 1) * (in_box_before(lenses, b, p) + 1) * lenses[p].1
}

/// The focusing power of the first `k` lenses together.
pub open spec fn power_sum(lenses: Seq<(Seq<u8>, int)>, k: int) -> int
    decreases k,
{
    if k <= 0 {
        0
    } else {
        power_sum(lenses, k - 1) + lens_power(lenses, k - 1)
    }
}

/// The focusing power can be computed in the size type, lens by lens.
pub open spec fn power_fits(lenses: Seq<(Seq<u8>, int)>) -> bool {
    forall|k: int|
        0 <= k < lenses.len() ==> {
            &&& (hash_of(lenses[k].0) + 1) * (in_box_before(lenses, hash_of(lenses[k].0), k) + 1)
                <= usize::MAX
            &&& 0 <= #[trigger] lens_power(lenses, k) <= usize::MAX
            &&& 0 <= power_sum(lenses, k + 1) <= usize::MAX
        }
}

/// What a list of lenses holds.
pub open spec fn lenses_of(v: Seq<Lens>) -> Seq<(Seq<u8>, int)> {
    Seq::new(v.len(), |i: int| (v[i].label@, v[i].focal as int))
}

/// A hash lies below 256.
pub proof fn lemma_hash_range(b: Seq<u8>)
    ensures
        0 <= hash_of(b) < 256,
    decreases b.len(),
{
    if b.len() > 0 {
        lemma_hash_range(b.drop_last());
    }
}

/// The hash of a string of bytes.
pub fn hash_bytes(b: &[u8]) -> (r: usize)
    ensures
        r == hash_of(b@),
        r < 256,
{
    let mut result: usize = 0;
    let mut k: usize = 0;
    while k < b.len()
        invariant
            k <= b@.len(),
            result == hash_of(b@.subrange(0, k as int)),
            result < 256,
        decreases b@.len() - k,
    {
        proof {
            let longer = b@.subrange(0, k + 1);
            assert(longer.drop_last() =~= b@.subrange(0, k as int));
            assert(longer.last() == b@[k as int]);
        }
        result = ((result + b[k] as usize) * 17) % 256;
        k += 1;
    }
    proof {
        assert(b@.subrange(0, k as int) =~= b@);
    }
    result
}

/// The hash of a string: that of the bytes that encode it.
pub fn compute_hash(s: &str) -> (r: usize)
    ensures
        r == hash_of(utf8(s@)),
        r < 256,
{
    hash_bytes(s.as_bytes())
}

impl Input {
    /// This value is what the text says: the pieces of the text between its
    /// commas.
    pub open spec fn is_parse_of(&self, text: Seq<u8>) -> bool {
        &&& self.strings@.len() == split(text, seq![44u8]).len()
        &&& forall|i: int|
            0 <= i < self.strings@.len() ==> (#[trigger] self.strings@[i])@ == chars_of(
                split(text, seq![44u8])[i],
            )
    }

    /// Reads the steps. Every text of ASCII characters is a sequence of
    /// steps.
    pub fn from_str(input: &str) -> (r: Result<Input, ParseError>)
        ensures
            match r {
                Ok(v) => ascii_bytes(input@) is Some && v.is_parse_of(ascii_bytes(input@)->0),
                Err(_) => ascii_bytes(input@) is None,
            },
    {
        let bytes = match to_ascii(input) {
            Some(b) => b,
            None => { return Err(ParseError {  }); },
        };
        let pat: [u8; 1] = [44];
        assert(pat@ =~= seq![44u8]);
        let pieces = split_bytes(bytes.as_slice(), pat.as_slice());
        let ghost text = bytes@;
        let mut strings: Vec<String> = Vec::new();
        let mut i: usize = 0;
        while i < pieces.len()
            invariant
                i <= pieces@.len(),
                rows_of(pieces@) == split(text, seq![44u8]),
                strings@.len() == i,
                forall|k: int|
                    0 <= k < i ==> (#[trigger] strings@[k])@ == chars_of(
                        split(text, seq![44u8])[k],
                    ),
            decreases pieces@.len() - i,
        {
            assert(pieces@[i as int]@ == split(text, seq![44u8])[i as int]);
            strings.push(string_of(pieces[i].as_slice()));
            i += 1;
        }
        Ok(Input { strings })
    }
}

/// The sum of the hashes of all steps.
pub fn part1(input: Input) -> (r: usize)
    requires
        256 * input.strings@.len() <= usize::MAX,
    ensures
        r == hash_sum(input.strings@, input.strings@.len() as int),
{
    let mut sum: usize = 0;
    let mut k: usize = 0;
    while k < input.strings.len()
        invariant
            k <= input.strings@.len(),
            256 * input.strings@.len() <= usize::MAX,
            sum == hash_sum(input.strings@, k as int),
            sum <= 256 * k,
        decreases input.strings@.len() - k,
    {
        sum = sum + compute_hash(input.strings[k].as_str());
        k += 1;
    }
    sum
}

/// The index of the first lens with the label, or the number of lenses.
fn find_lens(lenses: &Vec<Lens>, label: &[u8]) -> (p: usize)
    ensures
        p == position(lenses_of(lenses@), label@),
        p <= lenses@.len(),
        p < lenses@.len() ==> lenses@[p as int].label@ == label@,
{
    let ghost all = lenses_of(lenses@);
    let mut k: usize = 0;
    while k < lenses.len()
        invariant
            k <= lenses@.len(),
            all == lenses_of(lenses@),
            position(all.subrange(0, k as int), label@) == k,
        decreases lenses@.len() - k,
    {
        proof {
            let longer = all.subrange(0, k + 1);
            assert(longer.drop_last() =~= all.subrange(0, k as int));
            assert(longer.last() == all[k as int]);
        }
        if same_bytes(lenses[k].label.as_slice(), label) {
            proof {
                lemma_position_prefix(all, label@, k + 1);
            }
            return k;
        }
        k += 1;
    }
    proof {
        assert(all.subrange(0, k as int) =~= all);
    }
    k
}

/// A lens found among the first lenses is found among all of them.
proof fn lemma_position_prefix(lenses: Seq<(Seq<u8>, int)>, label: Seq<u8>, n: int)
    requires
        0 <= n <= lenses.len(),
        position(lenses.subrange(0, n), label) < n,
    ensures
        position(lenses, label) == position(lenses.subrange(0, n), label),
    decreases lenses.len() - n,
{
    if n < lenses.len() {
        let longer = lenses.subrange(0, n + 1);
        assert(longer.drop_last() =~= lenses.subrange(0, n));
        lemma_position_prefix(lenses, label, n + 1);
    } else {
        assert(lenses.subrange(0, n) =~= lenses);
    }
}

/// The bytes of `b` without the minus signs.
fn strip_dashes(b: &[u8]) -> (r: Vec<u8>)
    ensures
        r@ == without_dashes(b@),
{
    let mut r: Vec<u8> = Vec::new();
    let mut k: usize = 0;
    while k < b.len()
        invariant
            k <= b@.len(),
            r@ == without_dashes(b@.subrange(0, k as int)),
        decreases b@.len() - k,
    {
        proof {
            let longer = b@.subrange(0, k + 1);
            assert(longer.drop_last() =~= b@.subrange(0, k as int));
            assert(longer.last() == b@[k as int]);
        }
        if b[k] != 45 {
            r.push(b[k]);
        }
        k += 1;
    }
    proof {
        assert(b@.subrange(0, k as int) =~= b@);
    }
    r
}

/// Runs one step on the lenses.
fn run_step(lenses: &mut Vec<Lens>, step: &[u8])
    requires
        match split_once(step@, seq![61u8]) {
            Some((label, n)) => usize_of(n) is Some,
            None => true,
        },
    ensures
        lenses_of(final(lenses)@) == after_step(lenses_of(old(lenses)@), step@),
{
    let ghost before = lenses_of(lenses@);
    let pat: [u8; 1] = [61];
    assert(pat@ =~= seq![61u8]);
    let at = find(step, pat.as_slice(), 0);
    if at < step.len() {
        let label = copy_range(step, 0, at);
        let n = copy_range(step, at + 1, step.len());
        let f = match parse_usize(n.as_slice()) {
            Some(f) => f,
            None => 0,
        };
        let p = find_lens(lenses, label.as_slice());
        if p < lenses.len() {
            let old = lenses.remove(p);
            lenses.insert(p, Lens { label: old.label, focal: f });
            assert(lenses_of(lenses@) =~= before.update(p as int, (label@, f as int)));
        } else {
            lenses.push(Lens { label, focal: f });
            assert(lenses_of(lenses@) =~= before.push((label@, f as int)));
        }
    } else {
        let label = strip_dashes(step);
        let p = find_lens(lenses, label.as_slice());
        if p < lenses.len() {
            let _ = lenses.remove(p);
            assert(lenses_of(lenses@) =~= before.remove(p as int));
        }
    }
}

/// Runs all steps and returns the lenses that are left.
pub fn run_steps(steps: &Vec<String>) -> (lenses: Vec<Lens>)
    requires
        steps_are_valid(steps@),
    ensures
        lenses_of(lenses@) == after_steps(steps@, steps@.len() as int),
{
    let mut lenses: Vec<Lens> = Vec::new();
    let mut k: usize = 0;
    assert(lenses_of(lenses@) =~= after_steps(steps@, 0));
    while k < steps.len()
        invariant
            k <= steps@.len(),
            steps_are_valid(steps@),
            lenses_of(lenses@) == after_steps(steps@, k as int),
        decreases steps@.len() - k,
    {
        let ghost step = steps@[k as int];
        run_step(&mut lenses, steps[k].as_str().as_bytes());
        k += 1;
    }
    lenses
}

/// The focusing power of the lenses together.
pub fn focusing_power(lenses: &Vec<Lens>) -> (r: usize)
    requires
        power_fits(lenses_of(lenses@)),
    ensures
        r == power_sum(lenses_of(lenses@), lenses@.len() as int),
{
    let ghost all = lenses_of(lenses@);
    let mut sum: usize = 0;
    let mut p: usize = 0;
    while p < lenses.len()
        invariant
            p <= lenses@.len(),
            all == lenses_of(lenses@),
            power_fits(all),
            sum == power_sum(all, p as int),
        decreases lenses@.len() - p,
    {
        let b = hash_bytes(lenses[p].label.as_slice());
        let mut slot: usize = 0;
        let mut q: usize = 0;
        while q < p
            invariant
                q <= p < lenses@.len(),
                all == lenses_of(lenses@),
                slot == in_box_before(all, b as int, q as int),
                slot <= q,
            decreases p - q,
        {
            if hash_bytes(lenses[q].label.as_slice()) == b {
                slot += 1;
            }
            q += 1;
        }
        proof {
            assert(0 <= lens_power(all, p as int) <= usize::MAX);
            assert((b + 1) * (slot + 1) <= usize::MAX);
            assert(0 <= power_sum(all, p + 1) <= usize::MAX);
        }
        sum = sum + (b + 1) * (slot + 1) * lenses[p].focal;
        p += 1;
    }
    sum
}

/// The focusing power of the lenses that are left after all steps.
pub fn part2(input: Input) -> (r: usize)
    requires
        steps_are_valid(input.strings@),
        power_fits(after_steps(input.strings@, input.strings@.len() as int)),
    ensures
        r == power_sum(
            after_steps(input.strings@, input.strings@.len() as int),
            after_steps(input.strings@, input.strings@.len() as int).len() as int,
        ),
{
    let lenses = run_steps(&input.strings);
    focusing_power(&lenses)
}

// ----------------------------------------------------------------------
// Reading twice
// ----------------------------------------------------------------------


/// Reading a text twice gives the same value: two lists of steps that one
/// text says have the same strings.
pub proof fn lemma_parse_is_unique(a: Input, b: Input, text: Seq<u8>)
    requires
        a.is_parse_of(text),
        b.is_parse_of(text),
    ensures
        a.strings@.len() == b.strings@.len(),
        forall|i: int| 0 <= i < a.strings@.len() ==> (#[trigger] a.strings@[i])@ == b.strings@[i]@,
{
}

} // verus!
