//! An almanac lists seeds and a chain of maps, each a list of rules that
//! move a range of numbers elsewhere. The first part maps every seed
//! through the chain and asks for the lowest result. The second part reads
//! the seeds as ranges, given by start and length, and asks the same of
//! every number in them.

use crate::text::{
    all_i64, ascii_bytes, copy_range, find, i64s_of, lines, parse_all_i64, parse_tail_i64,
    rows_of, split, split_bytes, split_lines, split_once, split_tokens, tail, to_ascii, tokens,
    ParseError,
};
use vstd::prelude::*;

verus! {

/// One map of the almanac: its rules as destination, source and length.
#[derive(Debug, PartialEq, Eq)]
pub struct Transform {
    pub rules: Vec<(i64, i64, i64)>,
}

/// The seeds and the chain of maps.
#[derive(Debug, PartialEq, Eq)]
pub struct Input {
    pub seeds: Vec<i64>,
    pub transforms: Vec<Transform>,
}

/// A rule covers the number `i`.
pub open spec fn covers(rule: (i64, i64, i64), i: int) -> bool {
    rule.1 <= i < rule.1 + rule.2
}

/// Where a list of rules, from index `k` on, sends the number `i`: the
/// first rule that covers it moves it, and without one it stays.
pub open spec fn apply_from(rules: Seq<(i64, i64, i64)>, k: int, i: int) -> int
    decreases rules.len() - k,
{
    if k < 0 || k >= rules.len() {
        i
    } else if covers(rules[k], i) {
        rules[k].0 - rules[k].1 + i
    } else {
        apply_from(rules, k + 1, i)
    }
}

/// Where a list of rules sends the number `i`.
pub open spec fn apply(rules: Seq<(i64, i64, i64)>, i: int) -> int {
    apply_from(rules, 0, i)
}

/// Where the first `k` maps of the chain send the number `i`.
pub open spec fn location(transforms: Seq<Transform>, k: int, i: int) -> int
    decreases k,
{
    if k <= 0 {
        i
    } else {
        apply(transforms[k - 1].rules@, location(transforms, k - 1, i))
    }
}

/// Every stage of the way of `i` through the chain fits 64 bits.
pub open spec fn location_fits(transforms: Seq<Transform>, i: int) -> bool {
    forall|k: int|
        0 <= k <= transforms.len() ==> i64::MIN <= #[trigger] location(transforms, k, i)
            <= i64::MAX
}

/// The least location of the first `k` seeds; the greatest number of 64
/// bits for none.
pub open spec fn least_location(transforms: Seq<Transform>, seeds: Seq<i64>, k: int) -> int
    decreases k,
{
    if k <= 0 {
        i64::MAX as int
    } else {
        let rest = least_location(transforms, seeds, k - 1);
        let here = location(transforms, transforms.len() as int, seeds[k - 1] as int);
        if here < rest {
            here
        } else {
            rest
        }
    }
}

/// The three parts into which a rule cuts the range of `length` numbers
/// from `start`: the part that the rule moves, already moved, and the parts
/// that it leaves, of which the second lies behind the rule and exists only
/// where the range reaches over both ends of it.
pub open spec fn pieces(start: int, length: int, rule: (i64, i64, i64)) -> (
    Option<(int, int)>,
    Option<(int, int)>,
    Option<(int, int)>,
) {
    let lo = start;
    let hi = start + length - 1;
    let rule_lo = rule.1 as int;
    let rule_hi = rule.1 + rule.2 - 1;
    let delta = rule.0 - rule.1;
    if lo >= rule_lo {
        if hi <= rule_hi {
            (Some((start + delta, length)), None, None)
        } else if lo <= rule_hi {
            (
                Some((start + delta, length - hi + rule_hi)),
                Some((rule_hi + 1, hi - rule_hi)),
                None,
            )
        } else {
            (None, Some((start, length)), None)
        }
    } else {
        if hi > rule_hi {
            (
                Some((rule.0 as int, rule.2 as int)),
                Some((lo, rule_lo - lo)),
                Some((rule_hi + 1, hi - rule_hi)),
            )
        } else if hi >= rule_lo {
            (Some((rule.0 as int, hi - rule_lo + 1)), Some((lo, rule_lo - lo)), None)
        } else {
            (None, Some((start, length)), None)
        }
    }
}

/// A part, where there is one, fits 64 bits.
pub open spec fn part_fits(p: Option<(int, int)>) -> bool {
    match p {
        Some((a, b)) => i64::MIN <= a <= i64::MAX && i64::MIN <= b <= i64::MAX,
        None => true,
    }
}

/// The three parts fit 64 bits.
pub open spec fn pieces_fit(start: int, length: int, rule: (i64, i64, i64)) -> bool {
    let p = pieces(start, length, rule);
    part_fits(p.0) && part_fits(p.1) && part_fits(p.2)
}

/// A part as a range of 64 bits.
pub open spec fn narrow(p: Option<(int, int)>) -> Option<(i64, i64)> {
    match p {
        Some((a, b)) => Some((a as i64, b as i64)),
        None => None,
    }
}

/// A list with the part in front, where there is one.
pub open spec fn with_front(p: Option<(int, int)>, s: Seq<(i64, i64)>) -> Seq<(i64, i64)> {
    match p {
        Some((a, b)) => seq![(a as i64, b as i64)] + s,
        None => s,
    }
}

/// What one rule makes of a list of ranges, taken from the last to the
/// first: the moved parts, and the parts that are left for the next rule,
/// both in the order in which they are found.
pub open spec fn cut_all(queue: Seq<(i64, i64)>, rule: (i64, i64, i64)) -> (
    Seq<(i64, i64)>,
    Seq<(i64, i64)>,
)
    decreases queue.len(),
{
    if queue.len() == 0 {
        (Seq::empty(), Seq::empty())
    } else {
        let x = queue.last();
        let p = pieces(x.0 as int, x.1 as int, rule);
        let rest = cut_all(queue.drop_last(), rule);
        (with_front(p.0, rest.0), with_front(p.1, with_front(p.2, rest.1)))
    }
}

/// Every range of the list is cut into parts that fit 64 bits.
pub open spec fn cut_all_fits(queue: Seq<(i64, i64)>, rule: (i64, i64, i64)) -> bool {
    forall|j: int|
        0 <= j < queue.len() ==> pieces_fit(
            (#[trigger] queue[j]).0 as int,
            queue[j].1 as int,
            rule,
        )
}

/// The state after the first `k` rules of a map have cut the range of
/// `length` numbers from `start`: the moved parts so far, and the parts
/// that no rule has moved yet.
pub open spec fn after_rules(start: i64, length: i64, rules: Seq<(i64, i64, i64)>, k: int) -> (
    Seq<(i64, i64)>,
    Seq<(i64, i64)>,
)
    decreases k,
{
    if k <= 0 {
        (Seq::empty(), seq![(start, length)])
    } else {
        let before = after_rules(start, length, rules, k - 1);
        let cut = cut_all(before.1, rules[k - 1]);
        (before.0 + cut.0, cut.1)
    }
}

/// What a map makes of the range of `length` numbers from `start`: the
/// moved parts, then the parts that no rule moved.
pub open spec fn transformed(start: i64, length: i64, rules: Seq<(i64, i64, i64)>) -> Seq<
    (i64, i64),
> {
    let end = after_rules(start, length, rules, rules.len() as int);
    end.0 + end.1
}

/// Every cut that the map makes of the range fits 64 bits.
pub open spec fn transformed_fits(start: i64, length: i64, rules: Seq<(i64, i64, i64)>) -> bool {
    forall|k: int|
        0 <= k < rules.len() ==> cut_all_fits(
            (#[trigger] after_rules(start, length, rules, k)).1,
            rules[k],
        )
}

/// What a map makes of a list of ranges, taken from the last to the first.
pub open spec fn transform_all(queue: Seq<(i64, i64)>, rules: Seq<(i64, i64, i64)>) -> Seq<
    (i64, i64),
>
    decreases queue.len(),
{
    if queue.len() == 0 {
        Seq::empty()
    } else {
        transformed(queue.last().0, queue.last().1, rules) + transform_all(
            queue.drop_last(),
            rules,
        )
    }
}

/// The ranges that the first `k` maps of the chain make of the range of
/// `length` numbers from `start`.
pub open spec fn ranges_after(start: i64, length: i64, transforms: Seq<Transform>, k: int) -> Seq<
    (i64, i64),
>
    decreases k,
{
    if k <= 0 {
        seq![(start, length)]
    } else {
        transform_all(ranges_after(start, length, transforms, k - 1), transforms[k - 1].rules@)
    }
}

/// Every cut on the way of the range through the chain fits 64 bits.
pub open spec fn ranges_fit(start: i64, length: i64, transforms: Seq<Transform>) -> bool {
    forall|k: int, j: int|
        0 <= k < transforms.len() && 0 <= j < ranges_after(start, length, transforms, k).len()
            ==> transformed_fits(
            (#[trigger] ranges_after(start, length, transforms, k)[j]).0,
            ranges_after(start, length, transforms, k)[j].1,
            transforms[k].rules@,
        )
}

/// The least start of the first `k` ranges, and of `floor`.
pub open spec fn least_start(ranges: Seq<(i64, i64)>, floor: int, k: int) -> int
    decreases k,
{
    if k <= 0 {
        floor
    } else {
        let rest = least_start(ranges, floor, k - 1);
        if ranges[k - 1].0 < rest {
            ranges[k - 1].0 as int
        } else {
            rest
        }
    }
}

/// The least start of all ranges that the chain makes of the first `k`
/// pairs of seeds, each pair read as start and length.
pub open spec fn least_range_start(transforms: Seq<Transform>, seeds: Seq<i64>, k: int) -> int
    decreases k,
{
    if k <= 0 {
        i64::MAX as int
    } else {
        let ranges = ranges_after(
            seeds[2 * (k - 1)],
            seeds[2 * (k - 1) + 1],
            transforms,
            transforms.len() as int,
        );
        least_start(ranges, least_range_start(transforms, seeds, k - 1), ranges.len() as int)
    }
}

/// The rule that a line writes: its first three numbers, where all its
/// words are decimal numbers of 64 bits.
pub open spec fn rule_of(line: Seq<u8>) -> Option<(i64, i64, i64)> {
    let t = tokens(line);
    if all_i64(t) && t.len() >= 3 {
        Some((i64s_of(t)[0], i64s_of(t)[1], i64s_of(t)[2]))
    } else {
        None
    }
}

/// Every line of the block but the first, which is its title, writes a
/// rule.
pub open spec fn block_accepts(block: Seq<u8>) -> bool {
    forall|i: int| 0 <= i < tail(lines(block)).len() ==> rule_of(#[trigger] tail(lines(block))[i])
        is Some
}

/// The two line feeds that part the blocks of the text.
pub open spec fn gap() -> Seq<u8> {
    seq![10u8, 10u8]
}

/// The text has a first block, whose words after the first are decimal
/// numbers of 64 bits, and every block that follows is a map.
pub open spec fn accepts(text: Seq<u8>) -> bool {
    let head = (split_once(text, gap())->0).0;
    let rest = (split_once(text, gap())->0).1;
    &&& split_once(text, gap()) is Some
    &&& all_i64(tail(tokens(head)))
    &&& forall|j: int|
        0 <= j < split(rest, gap()).len() ==> block_accepts(#[trigger] split(rest, gap())[j])
}

/// Reads the rule of a line, if it writes one.
pub fn read_rule(line: &[u8]) -> (r: Option<(i64, i64, i64)>)
    ensures
        r == rule_of(line@),
{
    let t = split_tokens(line);
    match parse_all_i64(&t) {
        Some(v) => {
            if v.len() >= 3 {
                Some((v[0], v[1], v[2]))
            } else {
                None
            }
        },
        None => None,
    }
}

impl Transform {
    /// This map is what the block says: one rule for each line after the
    /// title.
    pub open spec fn is_parse_of(&self, block: Seq<u8>) -> bool {
        &&& self.rules@.len() == tail(lines(block)).len()
        &&& forall|i: int|
            0 <= i < self.rules@.len() ==> Some(#[trigger] self.rules@[i]) == rule_of(
                tail(lines(block))[i],
            )
    }

    /// Reads a map from the bytes of its block.
    pub fn read(block: &[u8]) -> (r: Option<Transform>)
        ensures
            match r {
                Some(t) => block_accepts(block@) && t.is_parse_of(block@),
                None => !block_accepts(block@),
            },
    {
        let ls = split_lines(block);
        let mut rules: Vec<(i64, i64, i64)> = Vec::new();
        if ls.len() == 0 {
            return Some(Transform { rules });
        }
        let ghost rest = tail(lines(block@));
        let mut k: usize = 1;
        while k < ls.len()
            invariant
                1 <= k <= ls@.len(),
                rows_of(ls@) == lines(block@),
                rest == tail(lines(block@)),
                rules@.len() == k - 1,
                forall|i: int| 0 <= i < k - 1 ==> Some(#[trigger] rules@[i]) == rule_of(rest[i]),
            decreases ls@.len() - k,
        {
            assert(rest[k - 1] == ls@[k as int]@) by {
                assert(rows_of(ls@)[k as int] == ls@[k as int]@);
            }
            match read_rule(ls[k].as_slice()) {
                Some(rule) => {
                    rules.push(rule);
                },
                None => {
                    return None;
                },
            }
            k += 1;
        }
        proof {
            assert forall|i: int| 0 <= i < rest.len() implies rule_of(#[trigger] rest[i])
                is Some by {
                assert(Some(rules@[i]) == rule_of(rest[i]));
            }
        }
        Some(Transform { rules })
    }

    /// Reads a map from its block: a title line, then one rule per line.
    pub fn from_str(s: &str) -> (r: Result<Transform, ParseError>)
        ensures
            match r {
                Ok(t) => ascii_bytes(s@) is Some && block_accepts(ascii_bytes(s@)->0)
                    && t.is_parse_of(ascii_bytes(s@)->0),
                Err(_) => ascii_bytes(s@) is None || !block_accepts(ascii_bytes(s@)->0),
            },
    {
        match to_ascii(s) {
            Some(b) => match Transform::read(b.as_slice()) {
                Some(t) => Ok(t),
                None => Err(ParseError {  }),
            },
            None => Err(ParseError {  }),
        }
    }

    /// Where this map sends the number `i`.
    pub fn process(&self, i: i64) -> (r: i64)
        requires
            i64::MIN <= apply(self.rules@, i as int) <= i64::MAX,
        ensures
            r == apply(self.rules@, i as int),
    {
        let mut k: usize = 0;
        while k < self.rules.len()
            invariant
                k <= self.rules@.len(),
                apply(self.rules@, i as int) == apply_from(self.rules@, k as int, i as int),
                i64::MIN <= apply(self.rules@, i as int) <= i64::MAX,
            decreases self.rules@.len() - k,
        {
            let (to, from, range) = self.rules[k];
            if i >= from && (i as i128) < from as i128 + range as i128 {
                return (to as i128 - from as i128 + i as i128) as i64;
            }
            k += 1;
        }
        i
    }
}

impl Input {
    /// This value is what the text says: the seeds are the numbers of the
    /// first block, the maps are the blocks that follow.
    pub open spec fn is_parse_of(&self, text: Seq<u8>) -> bool {
        let head = (split_once(text, gap())->0).0;
        let rest = (split_once(text, gap())->0).1;
        &&& self.seeds@ == i64s_of(tail(tokens(head)))
        &&& self.transforms@.len() == split(rest, gap()).len()
        &&& forall|j: int|
            0 <= j < self.transforms@.len() ==> (#[trigger] self.transforms@[j]).is_parse_of(
                split(rest, gap())[j],
            )
    }

    /// Reads an almanac. A text is one if it is ASCII, has an empty line
    /// behind its first block, and holds numbers where numbers belong.
    pub fn from_str(s: &str) -> (r: Result<Input, ParseError>)
        ensures
            match r {
                Ok(v) => ascii_bytes(s@) is Some && accepts(ascii_bytes(s@)->0) && v.is_parse_of(
                    ascii_bytes(s@)->0,
                ),
                Err(_) => ascii_bytes(s@) is None || !accepts(ascii_bytes(s@)->0),
            },
    {
        let bytes = match to_ascii(s) {
            Some(b) => b,
            None => { return Err(ParseError {  }); },
        };
        let ghost text = bytes@;
        let pat: [u8; 2] = [10, 10];
        assert(pat@ =~= gap());
        let at = find(bytes.as_slice(), pat.as_slice(), 0);
        if at >= bytes.len() {
            return Err(ParseError {  });
        }
        let head = copy_range(bytes.as_slice(), 0, at);
        let rest = copy_range(bytes.as_slice(), at + 2, bytes.len());
        assert(split_once(text, gap()) == Some((head@, rest@)));
        let words = split_tokens(head.as_slice());
        let seeds = match parse_tail_i64(&words) {
            Some(v) => v,
            None => { return Err(ParseError {  }); },
        };
        let blocks = split_bytes(rest.as_slice(), pat.as_slice());
        let mut transforms: Vec<Transform> = Vec::new();
        let mut j: usize = 0;
        while j < blocks.len()
            invariant
                j <= blocks@.len(),
                rows_of(blocks@) == split(rest@, gap()),
                ascii_bytes(s@) == Some(text),
                split_once(text, gap()) == Some((head@, rest@)),
                transforms@.len() == j,
                forall|i: int| 0 <= i < j ==> block_accepts(#[trigger] split(rest@, gap())[i]),
                forall|i: int|
                    0 <= i < j ==> (#[trigger] transforms@[i]).is_parse_of(
                        split(rest@, gap())[i],
                    ),
            decreases blocks@.len() - j,
        {
            assert(blocks@[j as int]@ == split(rest@, gap())[j as int]);
            match Transform::read(blocks[j].as_slice()) {
                Some(t) => {
                    transforms.push(t);
                },
                None => {
                    proof {
                        assert(rows_of(blocks@).len() == blocks@.len());
                        assert(!block_accepts(split(rest@, gap())[j as int]));
                        assert((split_once(text, gap())->0).1 == rest@);
                        assert(0 <= j < split(rest@, gap()).len());
                        assert(!accepts(text));
                    }
                    return Err(ParseError {  });
                },
            }
            j += 1;
        }
        Ok(Input { seeds, transforms })
    }
}

/// Where the chain of maps sends a seed.
pub fn map_to_location(seed: i64, transforms: &Vec<Transform>) -> (r: i64)
    requires
        location_fits(transforms@, seed as int),
    ensures
        r == location(transforms@, transforms@.len() as int, seed as int),
{
    let mut i: i64 = seed;
    let mut k: usize = 0;
    while k < transforms.len()
        invariant
            k <= transforms@.len(),
            location_fits(transforms@, seed as int),
            i == location(transforms@, k as int, seed as int),
        decreases transforms@.len() - k,
    {
        proof {
            assert(i64::MIN <= location(transforms@, k + 1, seed as int) <= i64::MAX);
        }
        i = transforms[k].process(i);
        k += 1;
    }
    i
}

/// The three parts into which a rule cuts a range.
pub fn intersect_range(start: i64, length: i64, rule: &(i64, i64, i64)) -> (r: (
    Option<(i64, i64)>,
    Option<(i64, i64)>,
    Option<(i64, i64)>,
))
    requires
        pieces_fit(start as int, length as int, *rule),
    ensures
        r.0 == narrow(pieces(start as int, length as int, *rule).0),
        r.1 == narrow(pieces(start as int, length as int, *rule).1),
        r.2 == narrow(pieces(start as int, length as int, *rule).2),
{
    let lo: i128 = start as i128;
    let hi: i128 = start as i128 + length as i128 - 1;
    let rule_lo: i128 = rule.1 as i128;
    let rule_hi: i128 = rule.1 as i128 + rule.2 as i128 - 1;
    let delta: i128 = rule.0 as i128 - rule.1 as i128;
    if lo >= rule_lo {
        if hi <= rule_hi {
            (Some(((lo + delta) as i64, length)), None, None)
        } else if lo <= rule_hi {
            (
                Some(((lo + delta) as i64, (length as i128 - hi + rule_hi) as i64)),
                Some(((rule_hi + 1) as i64, (hi - rule_hi) as i64)),
                None,
            )
        } else {
            (None, Some((start, length)), None)
        }
    } else {
        if hi > rule_hi {
            (
                Some((rule.0, rule.2)),
                Some((start, (rule_lo - lo) as i64)),
                Some(((rule_hi + 1) as i64, (hi - rule_hi) as i64)),
            )
        } else if hi >= rule_lo {
            (Some((rule.0, (hi - rule_lo + 1) as i64)), Some((start, (rule_lo - lo) as i64)), None)
        } else {
            (None, Some((start, length)), None)
        }
    }
}

/// What a map makes of a range: the parts that its rules move, each cut
/// out by the first rule that covers it, and the parts that none moves.
pub fn range_transform(start: i64, length: i64, transform: &Transform) -> (r: Vec<(i64, i64)>)
    requires
        transformed_fits(start, length, transform.rules@),
    ensures
        r@ == transformed(start, length, transform.rules@),
{
    let ghost rules = transform.rules@;
    let mut queue: Vec<(i64, i64)> = Vec::new();
    let mut moved: Vec<(i64, i64)> = Vec::new();
    queue.push((start, length));
    let mut k: usize = 0;
    assert(queue@ =~= after_rules(start, length, rules, 0).1);
    assert(moved@ =~= after_rules(start, length, rules, 0).0);
    while k < transform.rules.len()
        invariant
            k <= rules.len(),
            rules == transform.rules@,
            transformed_fits(start, length, rules),
            moved@ == after_rules(start, length, rules, k as int).0,
            queue@ == after_rules(start, length, rules, k as int).1,
        decreases rules.len() - k,
    {
        let rule = transform.rules[k];
        let mut temp: Vec<(i64, i64)> = Vec::new();
        let ghost moved0 = moved@;
        let ghost queue0 = queue@;
        let ghost done_moved: Seq<(i64, i64)> = Seq::empty();
        assert(cut_all_fits(after_rules(start, length, rules, k as int).1, rules[k as int]));
        while queue.len() > 0
            invariant
                cut_all_fits(queue@, rule),
                queue@.len() <= queue0.len(),
                queue@ == queue0.subrange(0, queue@.len() as int),
                moved@ + cut_all(queue@, rule).0 == moved0 + cut_all(queue0, rule).0,
                temp@ + cut_all(queue@, rule).1 == cut_all(queue0, rule).1,
            decreases queue@.len(),
        {
            let ghost q_before = queue@;
            let ghost m_before = moved@;
            let ghost t_before = temp@;
            let x = queue.pop().unwrap();
            proof {
                assert(queue@ =~= q_before.drop_last());
                assert(x == q_before.last());
                assert(pieces_fit(q_before[q_before.len() - 1].0 as int, x.1 as int, rule));
                assert forall|j: int| 0 <= j < queue@.len() implies pieces_fit(
                    (#[trigger] queue@[j]).0 as int,
                    queue@[j].1 as int,
                    rule,
                ) by {
                    assert(queue@[j] == q_before[j]);
                }
                assert(queue@ =~= queue0.subrange(0, queue@.len() as int));
            }
            let (a, b, c) = intersect_range(x.0, x.1, &rule);
            if let Some(a) = a {
                moved.push(a);
            }
            if let Some(b) = b {
                temp.push(b);
            }
            if let Some(c) = c {
                temp.push(c);
            }
            proof {
                let p = pieces(x.0 as int, x.1 as int, rule);
                let rest = cut_all(queue@, rule);
                let whole = cut_all(q_before, rule);
                assert(whole.0 == with_front(p.0, rest.0));
                assert(whole.1 == with_front(p.1, with_front(p.2, rest.1)));
                assert(moved@ + rest.0 =~= m_before + whole.0);
                assert(temp@ + rest.1 =~= t_before + whole.1);
            }
        }
        proof {
            assert(cut_all(queue@, rule).0 =~= Seq::<(i64, i64)>::empty());
            assert(cut_all(queue@, rule).1 =~= Seq::<(i64, i64)>::empty());
            assert(moved@ =~= moved0 + cut_all(queue0, rule).0);
            assert(temp@ =~= cut_all(queue0, rule).1);
        }
        queue = temp;
        k += 1;
    }
    moved.append(&mut queue);
    moved
}

/// The ranges that the chain of maps makes of a range.
pub fn map_range_to_locations(start: i64, length: i64, transforms: &Vec<Transform>) -> (r: Vec<
    (i64, i64),
>)
    requires
        ranges_fit(start, length, transforms@),
    ensures
        r@ == ranges_after(start, length, transforms@, transforms@.len() as int),
{
    let mut queue: Vec<(i64, i64)> = Vec::new();
    queue.push((start, length));
    assert(queue@ =~= ranges_after(start, length, transforms@, 0));
    let mut k: usize = 0;
    while k < transforms.len()
        invariant
            k <= transforms@.len(),
            ranges_fit(start, length, transforms@),
            queue@ == ranges_after(start, length, transforms@, k as int),
        decreases transforms@.len() - k,
    {
        let mut temp: Vec<(i64, i64)> = Vec::new();
        let ghost queue0 = queue@;
        let ghost rules = transforms@[k as int].rules@;
        while queue.len() > 0
            invariant
                k < transforms@.len(),
                rules == transforms@[k as int].rules@,
                queue@ == queue0.subrange(0, queue@.len() as int),
                queue@.len() <= queue0.len(),
                forall|j: int|
                    0 <= j < queue0.len() ==> transformed_fits(
                        (#[trigger] queue0[j]).0,
                        queue0[j].1,
                        rules,
                    ),
                temp@ + transform_all(queue@, rules) == transform_all(queue0, rules),
            decreases queue@.len(),
        {
            let ghost q_before = queue@;
            let ghost t_before = temp@;
            let x = queue.pop().unwrap();
            proof {
                assert(queue@ =~= q_before.drop_last());
                assert(x == queue0[q_before.len() - 1]);
                assert(queue@ =~= queue0.subrange(0, queue@.len() as int));
            }
            let mut part = range_transform(x.0, x.1, &transforms[k]);
            temp.append(&mut part);
            proof {
                assert(transform_all(q_before, rules) == transformed(x.0, x.1, rules)
                    + transform_all(queue@, rules));
                assert(temp@ + transform_all(queue@, rules) =~= t_before + transform_all(
                    q_before,
                    rules,
                ));
            }
        }
        proof {
            assert(transform_all(queue@, rules) =~= Seq::<(i64, i64)>::empty());
            assert(temp@ =~= transform_all(queue0, rules));
        }
        queue = temp;
        k += 1;
    }
    queue
}

/// The lowest location of all seeds.
pub fn part1(input: Input) -> (r: i64)
    requires
        input.seeds@.len() > 0,
        forall|k: int|
            0 <= k < input.seeds@.len() ==> location_fits(
                input.transforms@,
                #[trigger] input.seeds@[k] as int,
            ),
    ensures
        r == least_location(input.transforms@, input.seeds@, input.seeds@.len() as int),
{
    let mut least: i64 = i64::MAX;
    let mut k: usize = 0;
    while k < input.seeds.len()
        invariant
            k <= input.seeds@.len(),
            forall|j: int|
                0 <= j < input.seeds@.len() ==> location_fits(
                    input.transforms@,
                    #[trigger] input.seeds@[j] as int,
                ),
            least == least_location(input.transforms@, input.seeds@, k as int),
        decreases input.seeds@.len() - k,
    {
        let here = map_to_location(input.seeds[k], &input.transforms);
        if here < least {
            least = here;
        }
        k += 1;
    }
    least
}

/// Every cut on the way of the `k`-th seed range through the chain fits 64
/// bits.
pub open spec fn pair_ranges_fit(transforms: Seq<Transform>, seeds: Seq<i64>, k: int) -> bool {
    ranges_fit(seeds[2 * k], seeds[2 * k + 1], transforms)
}

/// The lowest start of the ranges that the chain makes of the seed ranges,
/// which is the lowest location of all numbers in them.
pub fn part2(input: Input) -> (r: i64)
    requires
        input.seeds@.len() % 2 == 0,
        forall|k: int|
            0 <= k < input.seeds@.len() / 2 ==> #[trigger] pair_ranges_fit(
                input.transforms@,
                input.seeds@,
                k,
            ),
    ensures
        r == least_range_start(input.transforms@, input.seeds@, input.seeds@.len() as int / 2),
{
    let mut least: i64 = i64::MAX;
    let mut k: usize = 0;
    let pairs: usize = input.seeds.len() / 2;
    while k < pairs
        invariant
            k <= pairs,
            pairs == input.seeds@.len() / 2,
            input.seeds@.len() % 2 == 0,
            input.seeds@.len() <= usize::MAX,
            forall|j: int|
                0 <= j < input.seeds@.len() / 2 ==> #[trigger] pair_ranges_fit(
                    input.transforms@,
                    input.seeds@,
                    j,
                ),
            least == least_range_start(input.transforms@, input.seeds@, k as int),
        decreases pairs - k,
    {
        assert(2 * k + 1 < input.seeds@.len());
        assert(pair_ranges_fit(input.transforms@, input.seeds@, k as int));
        let from = input.seeds[2 * k];
        let count = input.seeds[2 * k + 1];
        let ranges = map_range_to_locations(from, count, &input.transforms);
        let ghost floor = least as int;
        let mut j: usize = 0;
        while j < ranges.len()
            invariant
                j <= ranges@.len(),
                least == least_start(ranges@, floor, j as int),
            decreases ranges@.len() - j,
        {
            if ranges[j].0 < least {
                least = ranges[j].0;
            }
            j += 1;
        }
        k += 1;
    }
    least
}

/// The least location of the numbers from `from` up to `to`, and of
/// `floor`.
pub open spec fn least_in_range(transforms: Seq<Transform>, from: int, to: int, floor: int) -> int
    decreases to - from,
{
    if to <= from {
        floor
    } else {
        let rest = least_in_range(transforms, from, to - 1, floor);
        let here = location(transforms, transforms.len() as int, to - 1);
        if here < rest {
            here
        } else {
            rest
        }
    }
}

/// The least location of all numbers in the first `k` seed ranges.
pub open spec fn least_naive(transforms: Seq<Transform>, seeds: Seq<i64>, k: int) -> int
    decreases k,
{
    if k <= 0 {
        i64::MAX as int
    } else {
        least_in_range(
            transforms,
            seeds[2 * (k - 1)] as int,
            seeds[2 * (k - 1)] + seeds[2 * (k - 1) + 1],
            least_naive(transforms, seeds, k - 1),
        )
    }
}

/// Every number of the `k`-th seed range, and its way through the chain,
/// fits 64 bits.
pub open spec fn pair_fits(transforms: Seq<Transform>, seeds: Seq<i64>, k: int) -> bool {
    &&& seeds[2 * k] + seeds[2 * k + 1] <= i64::MAX
    &&& forall|i: int|
        seeds[2 * k] <= i < seeds[2 * k] + seeds[2 * k + 1] ==> #[trigger] location_fits(
            transforms,
            i,
        )
}

/// The lowest location of all numbers in the seed ranges, found by mapping
/// every number on its own.
pub fn part2_naive(input: Input) -> (r: i64)
    requires
        input.seeds@.len() % 2 == 0,
        forall|k: int|
            0 <= k < input.seeds@.len() / 2 ==> #[trigger] pair_fits(
                input.transforms@,
                input.seeds@,
                k,
            ),
    ensures
        r == least_naive(input.transforms@, input.seeds@, input.seeds@.len() as int / 2),
{
    let mut least: i64 = i64::MAX;
    let mut k: usize = 0;
    let pairs: usize = input.seeds.len() / 2;
    while k < pairs
        invariant
            k <= pairs,
            pairs == input.seeds@.len() / 2,
            input.seeds@.len() % 2 == 0,
            input.seeds@.len() <= usize::MAX,
            forall|j: int|
                0 <= j < input.seeds@.len() / 2 ==> #[trigger] pair_fits(
                    input.transforms@,
                    input.seeds@,
                    j,
                ),
            least == least_naive(input.transforms@, input.seeds@, k as int),
        decreases pairs - k,
    {
        assert(2 * k + 1 < input.seeds@.len());
        assert(pair_fits(input.transforms@, input.seeds@, k as int));
        let from = input.seeds[2 * k];
        let count = input.seeds[2 * k + 1];
        let ghost floor = least as int;
        let mut i: i64 = from;
        if count > 0 {
            let to: i64 = from + count;
            while i < to
                invariant
                    from <= i <= to,
                    to == from + count,
                    forall|n: int| from <= n < to ==> #[trigger] location_fits(input.transforms@, n),
                    least == least_in_range(input.transforms@, from as int, i as int, floor),
                decreases to - i,
            {
                let here = map_to_location(i, &input.transforms);
                if here < least {
                    least = here;
                }
                i += 1;
            }
        }
        k += 1;
    }
    least
}

// ----------------------------------------------------------------------
// Reading twice
// ----------------------------------------------------------------------


impl Transform {
    /// Reading a block twice gives the same map: the same rules.
    pub proof fn lemma_parse_is_unique(a: Transform, b: Transform, block: Seq<u8>)
        requires
            a.is_parse_of(block),
            b.is_parse_of(block),
        ensures
            a.rules@ == b.rules@,
    {
        assert forall|i: int| 0 <= i < a.rules@.len() implies a.rules@[i] == b.rules@[i] by {
            assert(Some(a.rules@[i]) == rule_of(tail(lines(block))[i]));
            assert(Some(b.rules@[i]) == rule_of(tail(lines(block))[i]));
        }
        assert(a.rules@ =~= b.rules@);
    }
}

/// Reading a text twice gives the same value: two almanacs that one text
/// says have the same seeds and maps with the same rules.
pub proof fn lemma_parse_is_unique(a: Input, b: Input, text: Seq<u8>)
    requires
        a.is_parse_of(text),
        b.is_parse_of(text),
    ensures
        a.seeds@ == b.seeds@,
        a.transforms@.len() == b.transforms@.len(),
        forall|i: int|
            0 <= i < a.transforms@.len() ==> (#[trigger] a.transforms@[i]).rules@
                == b.transforms@[i].rules@,
{
    let rest = (split_once(text, gap())->0).1;
    assert forall|i: int| 0 <= i < a.transforms@.len() implies (#[trigger] a.transforms@[i]).rules@
        == b.transforms@[i].rules@ by {
        Transform::lemma_parse_is_unique(a.transforms@[i], b.transforms@[i], split(rest, gap())[i]);
    }
}

} // verus!
