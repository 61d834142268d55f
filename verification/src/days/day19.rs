//! Parts with four ratings pass through workflows of rules until they are
//! accepted or rejected. The first part adds up the ratings of the parts
//! that are accepted. The second part counts how many combinations of
//! ratings from 1 to 4000 would be accepted.

use crate::text::{
    ascii_bytes, chars_of, copy_range, find, i32_of, lines, parse_i32, rows_of, split,
    split_bytes, split_lines, split_once, string_of, to_ascii, ParseError,
};
use vstd::prelude::*;

verus! {

/// A workflow: its name and its rules in order.
#[derive(Debug, PartialEq, Eq)]
pub struct RuleSet {
    pub name: String,
    pub rules: Vec<Rule>,
}

/// A rule: where a part goes if one of its ratings is less or greater than
/// a number, or where it goes in any case.
#[derive(Debug, PartialEq, Eq)]
pub enum Rule {
    LessThan(usize, i32, String),
    GreaterThan(usize, i32, String),
    Goto(String),
}

/// A part: its four ratings.
#[derive(Debug, PartialEq, Eq)]
pub struct Part {
    pub ratings: [i32; 4],
}

/// The workflows, in the order of the text, and the parts. Of two
/// workflows with one name the later one counts.
#[derive(Debug, PartialEq, Eq)]
pub struct Input {
    pub rulesets: Vec<RuleSet>,
    pub parts: Vec<Part>,
}

/// For each of the four ratings the greatest and the least value of a range
/// of parts.
#[derive(Debug, PartialEq, Eq, Clone, Copy)]
pub struct RatingsRange {
    pub upper: [i32; 4],
    pub lower: [i32; 4],
}

// ----------------------------------------------------------------------
// Reading
// ----------------------------------------------------------------------

/// An opening or a closing brace.
pub open spec fn is_brace(b: u8) -> bool {
    b == 123 || b == 125
}

/// The first index at or after `i` that holds no brace, or the end.
pub open spec fn skip_braces(s: Seq<u8>, i: int) -> int
    decreases s.len() - i,
{
    if 0 <= i < s.len() && is_brace(s[i]) {
        skip_braces(s, i + 1)
    } else {
        i
    }
}

/// `s` without the closing braces at its end, and without the opening
/// braces there too if `both` is set.
pub open spec fn drop_end(s: Seq<u8>, both: bool) -> Seq<u8>
    decreases s.len(),
{
    if s.len() > 0 && (s.last() == 125 || (both && s.last() == 123)) {
        drop_end(s.drop_last(), both)
    } else {
        s
    }
}

/// `s` without the braces at both ends.
pub open spec fn unbraced(s: Seq<u8>) -> Seq<u8> {
    drop_end(s.subrange(skip_braces(s, 0), s.len() as int), true)
}

/// The rating that a piece of the form `name=number` writes.
pub open spec fn rating_of(piece: Seq<u8>) -> Option<i32> {
    match split_once(piece, seq![61u8]) {
        Some((name, v)) => i32_of(v),
        None => None,
    }
}

/// The line writes a part: between its braces, the first four pieces that
/// commas part write ratings.
pub open spec fn part_accepts(s: Seq<u8>) -> bool {
    let p = split(unbraced(s), seq![44u8]);
    p.len() >= 4 && forall|i: int| 0 <= i < 4 ==> rating_of(#[trigger] p[i]) is Some
}

/// The number of the rating that a letter names: `x`, `m`, `a`, `s` are 0
/// to 3, and any other byte is its remainder of the division by four.
pub open spec fn rating_index(b: u8) -> int {
    if b == 97 {
        2
    } else {
        b as int % 4
    }
}

/// The text of a rule holds a comparison: its second byte is `<` or `>`.
pub open spec fn is_comparison(s: Seq<u8>) -> bool {
    s.len() >= 2 && (s[1] == 60 || s[1] == 62)
}

/// The text writes a rule: any text that holds no comparison does, and a
/// comparison must go on with a number of 32 bits and a colon.
pub open spec fn rule_accepts(s: Seq<u8>) -> bool {
    is_comparison(s) ==> match split_once(s.subrange(2, s.len() as int), seq![58u8]) {
        Some((n, to)) => i32_of(n) is Some,
        None => false,
    }
}

/// The line writes a workflow: a name, an opening brace, and rules that
/// commas part.
pub open spec fn ruleset_accepts(s: Seq<u8>) -> bool {
    let rest = (split_once(s, seq![123u8])->0).1;
    let p = split(drop_end(rest, false), seq![44u8]);
    &&& split_once(s, seq![123u8]) is Some
    &&& forall|i: int| 0 <= i < p.len() ==> rule_accepts(#[trigger] p[i])
}

/// The two line feeds that part the workflows from the parts.
pub open spec fn gap() -> Seq<u8> {
    seq![10u8, 10u8]
}

/// The text writes workflows, an empty line, and parts.
pub open spec fn accepts(text: Seq<u8>) -> bool {
    let head = (split_once(text, gap())->0).0;
    let rest = (split_once(text, gap())->0).1;
    &&& split_once(text, gap()) is Some
    &&& forall|i: int| 0 <= i < lines(head).len() ==> ruleset_accepts(#[trigger] lines(head)[i])
    &&& forall|i: int| 0 <= i < lines(rest).len() ==> part_accepts(#[trigger] lines(rest)[i])
}

impl Rule {
    /// This rule is what the text says.
    pub open spec fn is_parse_of(&self, s: Seq<u8>) -> bool {
        if is_comparison(s) {
            let cut = split_once(s.subrange(2, s.len() as int), seq![58u8])->0;
            let i = rating_index(s[0]);
            let n = i32_of(cut.0)->0;
            if s[1] == 60 {
                *self matches Rule::LessThan(ri, rn, to) && ri == i && rn == n && to@ == chars_of(
                    cut.1,
                )
            } else {
                *self matches Rule::GreaterThan(ri, rn, to) && ri == i && rn == n && to@
                    == chars_of(cut.1)
            }
        } else {
            *self matches Rule::Goto(to) && to@ == chars_of(s)
        }
    }

    /// The rule names a rating that a part has.
    pub open spec fn is_valid(&self) -> bool {
        match *self {
            Rule::LessThan(i, n, to) => i < 4,
            Rule::GreaterThan(i, n, to) => i < 4,
            Rule::Goto(to) => true,
        }
    }

    /// Reads a rule from its bytes.
    pub fn read(s: &[u8]) -> (r: Option<Rule>)
        ensures
            match r {
                Some(rule) => rule_accepts(s@) && rule.is_parse_of(s@) && rule.is_valid(),
                None => !rule_accepts(s@),
            },
    {
        if s.len() >= 2 && (s[1] == 60 || s[1] == 62) {
            let i: usize = if s[0] == 97 { 2 } else { (s[0] % 4) as usize };
            let rest = copy_range(s, 2, s.len());
            let pat: [u8; 1] = [58];
            assert(pat@ =~= seq![58u8]);
            let at = find(rest.as_slice(), pat.as_slice(), 0);
            if at >= rest.len() {
                return None;
            }
            let n = copy_range(rest.as_slice(), 0, at);
            let to = copy_range(rest.as_slice(), at + 1, rest.len());
            match parse_i32(n.as_slice()) {
                Some(v) => {
                    if s[1] == 60 {
                        Some(Rule::LessThan(i, v, string_of(to.as_slice())))
                    } else {
                        Some(Rule::GreaterThan(i, v, string_of(to.as_slice())))
                    }
                },
                None => None,
            }
        } else {
            Some(Rule::Goto(string_of(s)))
        }
    }

    /// Reads a rule: `x<5:to`, `x>5:to`, or the name of a workflow.
    pub fn from_str(s: &str) -> (r: Result<Rule, ParseError>)
        ensures
            match r {
                Ok(rule) => ascii_bytes(s@) is Some && rule_accepts(ascii_bytes(s@)->0)
                    && rule.is_parse_of(ascii_bytes(s@)->0),
                Err(_) => ascii_bytes(s@) is None || !rule_accepts(ascii_bytes(s@)->0),
            },
    {
        match to_ascii(s) {
            Some(b) => match Rule::read(b.as_slice()) {
                Some(r) => Ok(r),
                None => Err(ParseError {  }),
            },
            None => Err(ParseError {  }),
        }
    }
}

/// Copies `s` without the braces at its end, or without the closing ones.
fn strip_end(s: &[u8], from: usize, both: bool) -> (r: Vec<u8>)
    requires
        from <= s@.len(),
    ensures
        r@ == drop_end(s@.subrange(from as int, s@.len() as int), both),
{
    let mut b: usize = s.len();
    while b > from && (s[b - 1] == 125 || (both && s[b - 1] == 123))
        invariant
            from <= b <= s@.len(),
            drop_end(s@.subrange(from as int, s@.len() as int), both) == drop_end(
                s@.subrange(from as int, b as int),
                both,
            ),
        decreases b,
    {
        proof {
            assert(s@.subrange(from as int, b as int).drop_last() =~= s@.subrange(
                from as int,
                b - 1,
            ));
        }
        b -= 1;
    }
    copy_range(s, from, b)
}

impl Part {
    /// This part is what the text says: its ratings are those of the first
    /// four pieces between the braces.
    pub open spec fn is_parse_of(&self, s: Seq<u8>) -> bool {
        let p = split(unbraced(s), seq![44u8]);
        forall|i: int| 0 <= i < 4 ==> Some(#[trigger] self.ratings@[i]) == rating_of(p[i])
    }

    /// Reads a part from its bytes.
    pub fn read(s: &[u8]) -> (r: Option<Part>)
        ensures
            match r {
                Some(p) => part_accepts(s@) && p.is_parse_of(s@),
                None => !part_accepts(s@),
            },
    {
        let mut a: usize = 0;
        while a < s.len() && (s[a] == 123 || s[a] == 125)
            invariant
                a <= s@.len(),
                skip_braces(s@, 0) == skip_braces(s@, a as int),
            decreases s@.len() - a,
        {
            a += 1;
        }
        let inner = strip_end(s, a, true);
        let comma: [u8; 1] = [44];
        assert(comma@ =~= seq![44u8]);
        let equals: [u8; 1] = [61];
        assert(equals@ =~= seq![61u8]);
        let pieces = split_bytes(inner.as_slice(), comma.as_slice());
        let ghost p = split(unbraced(s@), seq![44u8]);
        if pieces.len() < 4 {
            return None;
        }
        let mut ratings: [i32; 4] = [0, 0, 0, 0];
        let mut i: usize = 0;
        while i < 4
            invariant
                i <= 4,
                pieces@.len() >= 4,
                rows_of(pieces@) == p,
                p == split(unbraced(s@), seq![44u8]),
                equals@ == seq![61u8],
                forall|k: int| 0 <= k < i ==> Some(#[trigger] ratings@[k]) == rating_of(p[k]),
            decreases 4 - i,
        {
            assert(pieces@[i as int]@ == p[i as int]);
            let piece = &pieces[i];
            let at = find(piece.as_slice(), equals.as_slice(), 0);
            if at >= piece.len() {
                assert(rating_of(p[i as int]) is None);
                return None;
            }
            let v = copy_range(piece.as_slice(), at + 1, piece.len());
            match parse_i32(v.as_slice()) {
                Some(n) => {
                    ratings[i] = n;
                },
                None => {
                    assert(rating_of(p[i as int]) is None);
                    return None;
                },
            }
            i += 1;
        }
        proof {
            assert(rows_of(pieces@).len() == pieces@.len());
            assert forall|k: int| 0 <= k < 4 implies rating_of(#[trigger] p[k]) is Some by {
                assert(Some(ratings@[k]) == rating_of(p[k]));
            }
        }
        Some(Part { ratings })
    }

    /// Reads a part: `{x=1,m=2,a=3,s=4}`.
    pub fn from_str(s: &str) -> (r: Result<Part, ParseError>)
        ensures
            match r {
                Ok(p) => ascii_bytes(s@) is Some && part_accepts(ascii_bytes(s@)->0)
                    && p.is_parse_of(ascii_bytes(s@)->0),
                Err(_) => ascii_bytes(s@) is None || !part_accepts(ascii_bytes(s@)->0),
            },
    {
        match to_ascii(s) {
            Some(b) => match Part::read(b.as_slice()) {
                Some(p) => Ok(p),
                None => Err(ParseError {  }),
            },
            None => Err(ParseError {  }),
        }
    }
}

impl RuleSet {
    /// This workflow is what the text says: the name before the first
    /// opening brace, and the rules that commas part behind it.
    pub open spec fn is_parse_of(&self, s: Seq<u8>) -> bool {
        let cut = split_once(s, seq![123u8])->0;
        let p = split(drop_end(cut.1, false), seq![44u8]);
        &&& self.name@ == chars_of(cut.0)
        &&& self.rules@.len() == p.len()
        &&& forall|i: int| 0 <= i < p.len() ==> (#[trigger] self.rules@[i]).is_parse_of(p[i])
    }

    /// Every rule names a rating that a part has.
    pub open spec fn is_valid(&self) -> bool {
        forall|i: int| 0 <= i < self.rules@.len() ==> (#[trigger] self.rules@[i]).is_valid()
    }

    /// Reads a workflow from its bytes.
    pub fn read(s: &[u8]) -> (r: Option<RuleSet>)
        ensures
            match r {
                Some(rs) => ruleset_accepts(s@) && rs.is_parse_of(s@) && rs.is_valid(),
                None => !ruleset_accepts(s@),
            },
    {
        let brace: [u8; 1] = [123];
        assert(brace@ =~= seq![123u8]);
        let comma: [u8; 1] = [44];
        assert(comma@ =~= seq![44u8]);
        let at = find(s, brace.as_slice(), 0);
        if at >= s.len() {
            return None;
        }
        let name = copy_range(s, 0, at);
        let ghost rest = s@.subrange(at + 1, s@.len() as int);
        assert(split_once(s@, seq![123u8]) == Some((name@, rest)));
        let inner = strip_end(s, at + 1, false);
        let pieces = split_bytes(inner.as_slice(), comma.as_slice());
        let ghost p = split(drop_end(rest, false), seq![44u8]);
        let mut rules: Vec<Rule> = Vec::new();
        let mut i: usize = 0;
        while i < pieces.len()
            invariant
                i <= pieces@.len(),
                rows_of(pieces@) == p,
                p == split(drop_end(rest, false), seq![44u8]),
                split_once(s@, seq![123u8]) == Some((name@, rest)),
                rules@.len() == i,
                forall|k: int| 0 <= k < i ==> rule_accepts(#[trigger] p[k]),
                forall|k: int|
                    0 <= k < i ==> (#[trigger] rules@[k]).is_parse_of(p[k]) && rules@[k].is_valid(),
            decreases pieces@.len() - i,
        {
            assert(pieces@[i as int]@ == p[i as int]);
            match Rule::read(pieces[i].as_slice()) {
                Some(rule) => {
                    rules.push(rule);
                },
                None => {
                    proof {
                        assert(rows_of(pieces@).len() == pieces@.len());
                        assert(!rule_accepts(p[i as int]));
                        assert((split_once(s@, seq![123u8])->0).1 == rest);
                        assert(0 <= i < p.len());
                        assert(!ruleset_accepts(s@));
                    }
                    return None;
                },
            }
            i += 1;
        }
        Some(RuleSet { name: string_of(name.as_slice()), rules })
    }

    /// Reads a workflow: `name{rule,rule,...}`.
    pub fn from_str(s: &str) -> (r: Result<RuleSet, ParseError>)
        ensures
            match r {
                Ok(rs) => ascii_bytes(s@) is Some && ruleset_accepts(ascii_bytes(s@)->0)
                    && rs.is_parse_of(ascii_bytes(s@)->0),
                Err(_) => ascii_bytes(s@) is None || !ruleset_accepts(ascii_bytes(s@)->0),
            },
    {
        match to_ascii(s) {
            Some(b) => match RuleSet::read(b.as_slice()) {
                Some(r) => Ok(r),
                None => Err(ParseError {  }),
            },
            None => Err(ParseError {  }),
        }
    }
}

impl Input {
    /// This value is what the text says: one workflow for each line before
    /// the empty line, one part for each line behind it.
    pub open spec fn is_parse_of(&self, text: Seq<u8>) -> bool {
        let head = (split_once(text, gap())->0).0;
        let rest = (split_once(text, gap())->0).1;
        &&& self.rulesets@.len() == lines(head).len()
        &&& self.parts@.len() == lines(rest).len()
        &&& forall|i: int|
            0 <= i < lines(head).len() ==> (#[trigger] self.rulesets@[i]).is_parse_of(
                lines(head)[i],
            )
        &&& forall|i: int|
            0 <= i < lines(rest).len() ==> (#[trigger] self.parts@[i]).is_parse_of(lines(rest)[i])
    }

    /// Every rule of every workflow names a rating that a part has.
    pub open spec fn is_valid(&self) -> bool {
        forall|i: int| 0 <= i < self.rulesets@.len() ==> (#[trigger] self.rulesets@[i]).is_valid()
    }

    /// Reads workflows and parts. A text is accepted if it is ASCII and
    /// writes workflows, an empty line, and parts.
    pub fn from_str(s: &str) -> (r: Result<Input, ParseError>)
        ensures
            match r {
                Ok(v) => ascii_bytes(s@) is Some && accepts(ascii_bytes(s@)->0) && v.is_parse_of(
                    ascii_bytes(s@)->0,
                ) && v.is_valid(),
                Err(_) => ascii_bytes(s@) is None || !accepts(ascii_bytes(s@)->0),
            },
    {
        let bytes = match to_ascii(s) {
            Some(b) => b,
            None => { return Err(ParseError {  }); },
        };
        let ghost text = bytes@;
        let pat: [u8; 2] = [10, 10];
        assert(pat@ =~= gap());
        let at = find(bytes.as_slice(), pat.as_slice(), 0);
        if at >= bytes.len() {
            return Err(ParseError {  });
        }
        let head = copy_range(bytes.as_slice(), 0, at);
        let rest = copy_range(bytes.as_slice(), at + 2, bytes.len());
        assert(split_once(text, gap()) == Some((head@, rest@)));
        let head_lines = split_lines(head.as_slice());
        let rest_lines = split_lines(rest.as_slice());
        let mut rulesets: Vec<RuleSet> = Vec::new();
        let mut i: usize = 0;
        while i < head_lines.len()
            invariant
                i <= head_lines@.len(),
                rows_of(head_lines@) == lines(head@),
                ascii_bytes(s@) == Some(text),
                split_once(text, gap()) == Some((head@, rest@)),
                rulesets@.len() == i,
                forall|k: int| 0 <= k < i ==> ruleset_accepts(#[trigger] lines(head@)[k]),
                forall|k: int|
                    0 <= k < i ==> (#[trigger] rulesets@[k]).is_parse_of(lines(head@)[k])
                        && rulesets@[k].is_valid(),
            decreases head_lines@.len() - i,
        {
            assert(head_lines@[i as int]@ == lines(head@)[i as int]);
            match RuleSet::read(head_lines[i].as_slice()) {
                Some(rs) => {
                    rulesets.push(rs);
                },
                None => {
                    proof {
                        assert(rows_of(head_lines@).len() == head_lines@.len());
                        assert(!ruleset_accepts(lines(head@)[i as int]));
                        assert((split_once(text, gap())->0).0 == head@);
                        assert(!accepts(text));
                    }
                    return Err(ParseError {  });
                },
            }
            i += 1;
        }
        let mut parts: Vec<Part> = Vec::new();
        let mut i: usize = 0;
        while i < rest_lines.len()
            invariant
                i <= rest_lines@.len(),
                rows_of(rest_lines@) == lines(rest@),
                ascii_bytes(s@) == Some(text),
                split_once(text, gap()) == Some((head@, rest@)),
                parts@.len() == i,
                forall|k: int| 0 <= k < i ==> part_accepts(#[trigger] lines(rest@)[k]),
                forall|k: int| 0 <= k < i ==> (#[trigger] parts@[k]).is_parse_of(lines(rest@)[k]),
            decreases rest_lines@.len() - i,
        {
            assert(rest_lines@[i as int]@ == lines(rest@)[i as int]);
            match Part::read(rest_lines[i].as_slice()) {
                Some(p) => {
                    parts.push(p);
                },
                None => {
                    proof {
                        assert(rows_of(rest_lines@).len() == rest_lines@.len());
                        assert(!part_accepts(lines(rest@)[i as int]));
                        assert((split_once(text, gap())->0).1 == rest@);
                        assert(!accepts(text));
                    }
                    return Err(ParseError {  });
                },
            }
            i += 1;
        }
        Ok(Input { rulesets, parts })
    }
}

// ----------------------------------------------------------------------
// Single parts
// ----------------------------------------------------------------------

/// The index of the last of the first `k` workflows that has the name, or
/// -1 if none has it.
pub open spec fn lookup(rulesets: Seq<RuleSet>, name: Seq<char>, k: int) -> int
    decreases k,
{
    if k <= 0 {
        -1
    } else if rulesets[k - 1].name@ == name {
        k - 1
    } else {
        lookup(rulesets, name, k - 1)
    }
}

/// Where a rule sends the parts that it applies to.
pub open spec fn target(rule: Rule) -> Seq<char> {
    match rule {
        Rule::LessThan(i, n, to) => to@,
        Rule::GreaterThan(i, n, to) => to@,
        Rule::Goto(to) => to@,
    }
}

/// The rule applies to a part with these ratings.
pub open spec fn fires(rule: Rule, ratings: Seq<i32>) -> bool {
    match rule {
        Rule::LessThan(i, n, to) => ratings[i as int] < n,
        Rule::GreaterThan(i, n, to) => ratings[i as int] > n,
        Rule::Goto(to) => true,
    }
}

/// The index of the first rule from `k` on that applies to the part, or
/// the number of rules.
pub open spec fn first_firing(rules: Seq<Rule>, ratings: Seq<i32>, k: int) -> int
    decreases rules.len() - k,
{
    if k < 0 || k >= rules.len() {
        rules.len() as int
    } else if fires(rules[k], ratings) {
        k
    } else {
        first_firing(rules, ratings, k + 1)
    }
}

/// The name of the workflow in which the part stands after `k` steps from
/// the workflow `in`, as long as each workflow on its way exists and has a
/// rule for it. `A` and `R` end the way.
pub open spec fn flow(rulesets: Seq<RuleSet>, ratings: Seq<i32>, k: nat) -> Option<Seq<char>>
    decreases k,
{
    if k == 0 {
        Some("in"@)
    } else {
        match flow(rulesets, ratings, (k - 1) as nat) {
            Some(name) => {
                let idx = lookup(rulesets, name, rulesets.len() as int);
                if name == "A"@ || name == "R"@ || idx < 0 {
                    None
                } else {
                    let rules = rulesets[idx].rules@;
                    let f = first_firing(rules, ratings, 0);
                    if f < rules.len() {
                        Some(target(rules[f]))
                    } else {
                        None
                    }
                }
            },
            None => None,
        }
    }
}

/// The part is accepted or rejected after exactly `k` steps.
pub open spec fn settles(rulesets: Seq<RuleSet>, ratings: Seq<i32>, k: nat) -> bool {
    flow(rulesets, ratings, k) == Some("A"@) || flow(rulesets, ratings, k) == Some("R"@)
}

/// The way of the part comes to an end.
pub open spec fn comes_to_end(rulesets: Seq<RuleSet>, ratings: Seq<i32>) -> bool {
    exists|k: nat| settles(rulesets, ratings, k)
}

/// The way of the part ends in `A`.
pub open spec fn is_accepted(rulesets: Seq<RuleSet>, ratings: Seq<i32>) -> bool {
    exists|k: nat| flow(rulesets, ratings, k) == Some("A"@)
}

/// The sum of the four ratings.
pub open spec fn rating_sum(ratings: Seq<i32>) -> int {
    ratings[0] + ratings[1] + ratings[2] + ratings[3]
}

/// The sum of the ratings of those of the first `k` parts that are
/// accepted.
pub open spec fn accepted_sum(rulesets: Seq<RuleSet>, parts: Seq<Part>, k: int) -> int
    decreases k,
{
    if k <= 0 {
        0
    } else {
        accepted_sum(rulesets, parts, k - 1) + if is_accepted(rulesets, parts[k - 1].ratings@) {
            rating_sum(parts[k - 1].ratings@)
        } else {
            0
        }
    }
}

/// Once the way of a part has ended it is over for good.
pub proof fn lemma_flow_over(rulesets: Seq<RuleSet>, ratings: Seq<i32>, a: nat, b: nat)
    requires
        settles(rulesets, ratings, a) || flow(rulesets, ratings, a) is None,
        a < b,
    ensures
        flow(rulesets, ratings, b) is None,
    decreases b,
{
    if b > a + 1 {
        lemma_flow_over(rulesets, ratings, a, (b - 1) as nat);
    }
}

/// The workflow to which a workflow sends a part.
pub fn process_ruleset(part: &Part, ruleset: &RuleSet) -> (r: String)
    requires
        ruleset.is_valid(),
        first_firing(ruleset.rules@, part.ratings@, 0) < ruleset.rules@.len(),
    ensures
        r@ == target(ruleset.rules@[first_firing(ruleset.rules@, part.ratings@, 0)]),
{
    let mut k: usize = 0;
    while k < ruleset.rules.len()
        invariant
            k <= ruleset.rules@.len(),
            ruleset.is_valid(),
            first_firing(ruleset.rules@, part.ratings@, 0) == first_firing(
                ruleset.rules@,
                part.ratings@,
                k as int,
            ),
            first_firing(ruleset.rules@, part.ratings@, 0) < ruleset.rules@.len(),
        decreases ruleset.rules@.len() - k,
    {
        assert(ruleset.rules@[k as int].is_valid());
        match &ruleset.rules[k] {
            Rule::Goto(to) => {
                return to.clone();
            },
            Rule::LessThan(i, n, to) => {
                if part.ratings[*i] < *n {
                    return to.clone();
                }
            },
            Rule::GreaterThan(i, n, to) => {
                if part.ratings[*i] > *n {
                    return to.clone();
                }
            },
        }
        k += 1;
    }
    String::new()
}

/// The index of the last workflow with the name.
pub fn find_ruleset(rulesets: &Vec<RuleSet>, name: &String) -> (r: Option<usize>)
    ensures
        match r {
            Some(i) => i == lookup(rulesets@, name@, rulesets@.len() as int) && i
                < rulesets@.len(),
            None => lookup(rulesets@, name@, rulesets@.len() as int) < 0,
        },
{
    let mut k: usize = rulesets.len();
    while k > 0
        invariant
            k <= rulesets@.len(),
            lookup(rulesets@, name@, rulesets@.len() as int) == lookup(rulesets@, name@, k as int),
        decreases k,
    {
        if rulesets[k - 1].name == *name {
            return Some(k - 1);
        }
        k -= 1;
    }
    None
}

/// The sum of the ratings of the parts that are accepted.
pub fn part1(input: Input) -> (r: i32)
    requires
        input.is_valid(),
        forall|p: int|
            0 <= p < input.parts@.len() ==> comes_to_end(
                input.rulesets@,
                (#[trigger] input.parts@[p]).ratings@,
            ),
        forall|p: int|
            0 <= p <= input.parts@.len() ==> i32::MIN <= #[trigger] accepted_sum(
                input.rulesets@,
                input.parts@,
                p,
            ) <= i32::MAX,
    ensures
        r == accepted_sum(input.rulesets@, input.parts@, input.parts@.len() as int),
{
    let ghost rs = input.rulesets@;
    let accept = "A".to_owned();
    let reject = "R".to_owned();
    let mut sol: i32 = 0;
    let mut p: usize = 0;
    while p < input.parts.len()
        invariant
            p <= input.parts@.len(),
            rs == input.rulesets@,
            input.is_valid(),
            accept@ == "A"@,
            reject@ == "R"@,
            forall|q: int|
                0 <= q < input.parts@.len() ==> comes_to_end(
                    rs,
                    (#[trigger] input.parts@[q]).ratings@,
                ),
            forall|q: int|
                0 <= q <= input.parts@.len() ==> i32::MIN <= #[trigger] accepted_sum(
                    rs,
                    input.parts@,
                    q,
                ) <= i32::MAX,
            sol == accepted_sum(rs, input.parts@, p as int),
        decreases input.parts@.len() - p,
    {
        let part = &input.parts[p];
        let ghost ratings = part.ratings@;
        assert(comes_to_end(rs, input.parts@[p as int].ratings@));
        let ghost stop = choose|k: nat| settles(rs, input.parts@[p as int].ratings@, k);
        let mut current = "in".to_owned();
        let ghost mut k: nat = 0;
        while current != accept && current != reject
            invariant
                rs == input.rulesets@,
                input.is_valid(),
                ratings == part.ratings@,
                accept@ == "A"@,
                reject@ == "R"@,
                settles(rs, ratings, stop),
                k <= stop,
                flow(rs, ratings, k) == Some(current@),
            decreases stop - k,
        {
            proof {
                if k == stop {
                    assert(false);
                }
                assert(flow(rs, ratings, k + 1) is Some) by {
                    if flow(rs, ratings, k + 1) is None {
                        if k + 1 < stop {
                            lemma_flow_over(rs, ratings, k + 1, stop);
                        }
                    }
                }
            }
            match find_ruleset(&input.rulesets, &current) {
                Some(idx) => {
                    assert(input.rulesets@[idx as int].is_valid());
                    current = process_ruleset(part, &input.rulesets[idx]);
                },
                None => {
                    assert(false);
                },
            }
            proof {
                k = k + 1;
            }
        }
        proof {
            assert(settles(rs, ratings, k));
            if current@ == "A"@ {
                assert(is_accepted(rs, ratings));
            } else {
                if is_accepted(rs, ratings) {
                    let j = choose|j: nat| flow(rs, ratings, j) == Some("A"@);
                    if j < k {
                        lemma_flow_over(rs, ratings, j, k);
                    } else if k < j {
                        lemma_flow_over(rs, ratings, k, j);
                    }
                    assert(false);
                }
            }
            assert(i32::MIN <= accepted_sum(rs, input.parts@, p + 1) <= i32::MAX);
        }
        if current == accept {
            let sum: i64 = part.ratings[0] as i64 + part.ratings[1] as i64 + part.ratings[2] as i64
                + part.ratings[3] as i64;
            sol = (sol as i64 + sum) as i32;
        }
        p += 1;
    }
    sol
}

// ----------------------------------------------------------------------
// Ranges of parts
// ----------------------------------------------------------------------

/// What a range of ratings holds.
pub struct Span {
    pub upper: Seq<i32>,
    pub lower: Seq<i32>,
}

impl View for RatingsRange {
    type V = Span;

    open spec fn view(&self) -> Span {
        Span { upper: self.upper@, lower: self.lower@ }
    }
}

/// What a list of ranges holds.
pub open spec fn spans(v: Seq<RatingsRange>) -> Seq<Span> {
    Seq::new(v.len(), |i: int| v[i]@)
}

/// The number of parts in a range: the product of the numbers of values of
/// the first `k` ratings.
pub open spec fn combinations(s: Span, k: int) -> int
    decreases k,
{
    if k <= 0 {
        1
    } else {
        combinations(s, k - 1) * (s.upper[k - 1] - s.lower[k - 1] + 1)
    }
}

/// The product can be computed in 64 bits, rating by rating.
pub open spec fn combinations_fit(s: Span) -> bool {
    forall|k: int| 0 <= k <= 4 ==> i64::MIN <= #[trigger] combinations(s, k) <= i64::MAX
}

/// Two lists in a row, if there are both.
pub open spec fn join(a: Option<Seq<Span>>, b: Option<Seq<Span>>) -> Option<Seq<Span>> {
    match (a, b) {
        (Some(x), Some(y)) => Some(x + y),
        _ => None,
    }
}

/// The ranges of parts that are accepted among the parts of `span` that
/// enter the workflow `name`, in the order in which the rules find them.
/// There are none where the way through the workflows is more than `fuel`
/// workflows deep, or leads to a workflow that does not exist.
pub open spec fn accepted_from(rulesets: Seq<RuleSet>, name: Seq<char>, span: Span, fuel: nat)
    -> Option<Seq<Span>>
    decreases fuel, 0int,
{
    let idx = lookup(rulesets, name, rulesets.len() as int);
    if name == "A"@ {
        Some(seq![span])
    } else if name == "R"@ {
        Some(Seq::empty())
    } else if fuel == 0 || idx < 0 {
        None
    } else {
        accepted_rules(rulesets, rulesets[idx].rules@, 0, span, (fuel - 1) as nat)
    }
}

/// The ranges of parts that are accepted among the parts of `span` that
/// come to the rule `k` of a workflow. A rule that applies to no part of
/// the range is passed over; one that applies to all of them sends the
/// range on and lets it pass too; any other one cuts the range in two.
pub open spec fn accepted_rules(
    rulesets: Seq<RuleSet>,
    rules: Seq<Rule>,
    k: int,
    span: Span,
    fuel: nat,
) -> Option<Seq<Span>>
    decreases fuel, rules.len() - k,
{
    if k < 0 || k >= rules.len() {
        Some(Seq::empty())
    } else {
        let onwards = accepted_rules(rulesets, rules, k + 1, span, fuel);
        match rules[k] {
            Rule::Goto(to) => join(accepted_from(rulesets, to@, span, fuel), onwards),
            Rule::LessThan(i, n, to) => if span.lower[i as int] >= n {
                onwards
            } else if span.upper[i as int] < n {
                join(accepted_from(rulesets, to@, span, fuel), onwards)
            } else {
                join(
                    accepted_from(
                        rulesets,
                        to@,
                        Span { upper: span.upper.update(i as int, (n - 1) as i32), ..span },
                        fuel,
                    ),
                    accepted_rules(
                        rulesets,
                        rules,
                        k + 1,
                        Span { lower: span.lower.update(i as int, n), ..span },
                        fuel,
                    ),
                )
            },
            Rule::GreaterThan(i, n, to) => if span.upper[i as int] <= n {
                onwards
            } else if span.lower[i as int] > n {
                join(accepted_from(rulesets, to@, span, fuel), onwards)
            } else {
                join(
                    accepted_from(
                        rulesets,
                        to@,
                        Span { lower: span.lower.update(i as int, (n + 1) as i32), ..span },
                        fuel,
                    ),
                    accepted_rules(
                        rulesets,
                        rules,
                        k + 1,
                        Span { upper: span.upper.update(i as int, n), ..span },
                        fuel,
                    ),
                )
            },
        }
    }
}

/// The range of all parts with ratings from 1 to 4000.
pub open spec fn full_span() -> Span {
    Span { upper: seq![4000i32, 4000i32, 4000i32, 4000i32], lower: seq![1i32, 1i32, 1i32, 1i32] }
}

/// The way of the full range from the workflow `in` comes to an end.
pub open spec fn ranges_settle(rulesets: Seq<RuleSet>) -> bool {
    exists|fuel: nat| accepted_from(rulesets, "in"@, full_span(), fuel) is Some
}

/// The ranges of parts that are accepted among all parts with ratings from
/// 1 to 4000.
pub open spec fn accepted_ranges(rulesets: Seq<RuleSet>) -> Seq<Span> {
    accepted_in(rulesets, "in"@, full_span())
}

/// The number of parts in the first `k` ranges together.
pub open spec fn combinations_sum(ranges: Seq<Span>, k: int) -> int
    decreases k,
{
    if k <= 0 {
        0
    } else {
        combinations_sum(ranges, k - 1) + combinations(ranges[k - 1], 4)
    }
}

/// The sum can be computed in 64 bits, range by range.
pub open spec fn sum_fits(ranges: Seq<Span>) -> bool {
    &&& forall|k: int| 0 <= k < ranges.len() ==> combinations_fit(#[trigger] ranges[k])
    &&& forall|k: int|
        0 <= k <= ranges.len() ==> i64::MIN <= #[trigger] combinations_sum(ranges, k) <= i64::MAX
}

impl RatingsRange {
    /// The number of parts in the range: the product, over the four
    /// ratings, of the number of values from the least to the greatest.
    pub fn count_combinations(&self) -> (r: i64)
        requires
            combinations_fit(self@),
        ensures
            r == combinations(self@, 4),
    {
        let mut product: i64 = 1;
        let mut k: usize = 0;
        while k < 4
            invariant
                k <= 4,
                combinations_fit(self@),
                product == combinations(self@, k as int),
            decreases 4 - k,
        {
            proof {
                assert(i64::MIN <= combinations(self@, k + 1) <= i64::MAX);
            }
            product = product * ((self.upper[k] as i64) - (self.lower[k] as i64) + 1);
            k += 1;
        }
        product
    }
}

/// The ranges of parts that are accepted among the parts of a range that
/// enter a workflow, added behind the ranges found so far, where the way
/// through the workflows is no more than `fuel` workflows deep.
fn collect_ranges(
    rulesets: &Vec<RuleSet>,
    current_ruleset: String,
    current_range: RatingsRange,
    ranges: &mut Vec<RatingsRange>,
    Ghost(fuel): Ghost<nat>,
)
    requires
        forall|i: int| 0 <= i < rulesets@.len() ==> (#[trigger] rulesets@[i]).is_valid(),
        accepted_from(rulesets@, current_ruleset@, current_range@, fuel) is Some,
    ensures
        spans(final(ranges)@) == spans(old(ranges)@) + accepted_from(
            rulesets@,
            current_ruleset@,
            current_range@,
            fuel,
        )->0,
    decreases fuel,
{
    let ghost before = spans(ranges@);
    let accept = "A".to_owned();
    let reject = "R".to_owned();
    if current_ruleset == accept {
        ranges.push(current_range);
        assert(spans(ranges@) =~= before + seq![current_range@]);
    } else if current_ruleset != reject {
        let idx = match find_ruleset(rulesets, &current_ruleset) {
            Some(i) => i,
            None => {
                assert(false);
                return ;
            },
        };
        let ruleset = &rulesets[idx];
        let ghost rules = ruleset.rules@;
        let ghost rs = rulesets@;
        let ghost f = (fuel - 1) as nat;
        let ghost total = accepted_rules(rs, rules, 0, current_range@, f)->0;
        let mut range = current_range;
        let mut k: usize = 0;
        assert(ruleset.is_valid());
        while k < ruleset.rules.len()
            invariant
                k <= rules.len(),
                rules == ruleset.rules@,
                rs == rulesets@,
                fuel > 0,
                f == fuel - 1,
                ruleset.is_valid(),
                forall|i: int| 0 <= i < rs.len() ==> (#[trigger] rs[i]).is_valid(),
                accepted_rules(rs, rules, k as int, range@, f) is Some,
                spans(ranges@) + accepted_rules(rs, rules, k as int, range@, f)->0 == before
                    + total,
            decreases rules.len() - k,
        {
            let ghost found = spans(ranges@);
            let ghost span = range@;
            assert(rules[k as int].is_valid());
            match &ruleset.rules[k] {
                Rule::Goto(to) => {
                    collect_ranges(rulesets, to.clone(), range, ranges, Ghost(f));
                    proof {
                        let a = accepted_from(rs, to@, span, f)->0;
                        let b = accepted_rules(rs, rules, k + 1, span, f)->0;
                        assert((found + a) + b =~= found + (a + b));
                    }
                },
                Rule::LessThan(i, n, to) => {
                    if range.lower[*i] >= *n {
                    } else if range.upper[*i] < *n {
                        collect_ranges(rulesets, to.clone(), range, ranges, Ghost(f));
                        proof {
                            let a = accepted_from(rs, to@, span, f)->0;
                            let b = accepted_rules(rs, rules, k + 1, span, f)->0;
                            assert((found + a) + b =~= found + (a + b));
                        }
                    } else {
                        let mut next_range = range;
                        next_range.upper[*i] = *n - 1;
                        let ghost next = Span {
                            upper: span.upper.update(*i as int, (*n - 1) as i32),
                            ..span
                        };
                        assert(next_range@ == next);
                        collect_ranges(rulesets, to.clone(), next_range, ranges, Ghost(f));
                        range.lower[*i] = *n;
                        proof {
                            let left = Span { lower: span.lower.update(*i as int, *n), ..span };
                            assert(range@ == left);
                            let a = accepted_from(rs, to@, next, f)->0;
                            let b = accepted_rules(rs, rules, k + 1, left, f)->0;
                            assert((found + a) + b =~= found + (a + b));
                        }
                    }
                },
                Rule::GreaterThan(i, n, to) => {
                    if range.upper[*i] <= *n {
                    } else if range.lower[*i] > *n {
                        collect_ranges(rulesets, to.clone(), range, ranges, Ghost(f));
                        proof {
                            let a = accepted_from(rs, to@, span, f)->0;
                            let b = accepted_rules(rs, rules, k + 1, span, f)->0;
                            assert((found + a) + b =~= found + (a + b));
                        }
                    } else {
                        let mut next_range = range;
                        next_range.lower[*i] = *n + 1;
                        let ghost next = Span {
                            lower: span.lower.update(*i as int, (*n + 1) as i32),
                            ..span
                        };
                        assert(next_range@ == next);
                        collect_ranges(rulesets, to.clone(), next_range, ranges, Ghost(f));
                        range.upper[*i] = *n;
                        proof {
                            let left = Span { upper: span.upper.update(*i as int, *n), ..span };
                            assert(range@ == left);
                            let a = accepted_from(rs, to@, next, f)->0;
                            let b = accepted_rules(rs, rules, k + 1, left, f)->0;
                            assert((found + a) + b =~= found + (a + b));
                        }
                    }
                },
            }
            k += 1;
        }
        proof {
            assert(accepted_rules(rs, rules, k as int, range@, f)->0 =~= Seq::<Span>::empty());
            assert(spans(ranges@) =~= before + total);
        }
    } else {
        assert(spans(ranges@) =~= before + Seq::<Span>::empty());
    }
}

/// The ranges of parts that are accepted among the parts of `span` that
/// enter the workflow `name`, where the way through the workflows comes to
/// an end.
pub open spec fn accepted_in(rulesets: Seq<RuleSet>, name: Seq<char>, span: Span) -> Seq<Span> {
    accepted_from(
        rulesets,
        name,
        span,
        choose|fuel: nat| accepted_from(rulesets, name, span, fuel) is Some,
    )->0
}

/// The ranges of parts that are accepted among the parts of a range that
/// enter a workflow, added behind the ranges found so far.
pub fn find_accepted_ranges(
    rulesets: &Vec<RuleSet>,
    current_ruleset: String,
    current_range: RatingsRange,
    ranges: &mut Vec<RatingsRange>,
)
    requires
        forall|i: int| 0 <= i < rulesets@.len() ==> (#[trigger] rulesets@[i]).is_valid(),
        exists|fuel: nat|
            accepted_from(rulesets@, current_ruleset@, current_range@, fuel) is Some,
    ensures
        spans(final(ranges)@) == spans(old(ranges)@) + accepted_in(
            rulesets@,
            current_ruleset@,
            current_range@,
        ),
{
    let ghost fuel = choose|fuel: nat|
        accepted_from(rulesets@, current_ruleset@, current_range@, fuel) is Some;
    collect_ranges(rulesets, current_ruleset, current_range, ranges, Ghost(fuel));
}

/// The number of combinations of ratings from 1 to 4000 that are accepted.
pub fn part2(input: Input) -> (r: i64)
    requires
        input.is_valid(),
        ranges_settle(input.rulesets@),
        sum_fits(accepted_ranges(input.rulesets@)),
    ensures
        r == combinations_sum(
            accepted_ranges(input.rulesets@),
            accepted_ranges(input.rulesets@).len() as int,
        ),
{
    let mut ranges: Vec<RatingsRange> = Vec::new();
    let starting_range = RatingsRange { upper: [4000, 4000, 4000, 4000], lower: [1, 1, 1, 1] };
    proof {
        assert(starting_range.upper@ =~= full_span().upper);
        assert(starting_range.lower@ =~= full_span().lower);
        assert(starting_range@ == full_span());
    }
    find_accepted_ranges(&input.rulesets, "in".to_owned(), starting_range, &mut ranges);
    let ghost all = accepted_ranges(input.rulesets@);
    assert(spans(ranges@) =~= all);
    let mut sum: i64 = 0;
    let mut k: usize = 0;
    while k < ranges.len()
        invariant
            k <= ranges@.len(),
            spans(ranges@) == all,
            sum_fits(all),
            sum == combinations_sum(all, k as int),
        decreases ranges@.len() - k,
    {
        proof {
            assert(all[k as int] == ranges@[k as int]@);
            assert(combinations_fit(all[k as int]));
            assert(i64::MIN <= combinations_sum(all, k + 1) <= i64::MAX);
        }
        sum = sum + ranges[k].count_combinations();
        k += 1;
    }
    sum
}

// ----------------------------------------------------------------------
// Reading twice
// ----------------------------------------------------------------------


impl Rule {
    /// The two rules are of one kind, with the same rating, number and
    /// name.
    pub open spec fn same_as(&self, other: Rule) -> bool {
        match (*self, other) {
            (Rule::LessThan(i, n, to), Rule::LessThan(i2, n2, to2)) => i == i2 && n == n2 && to@
                == to2@,
            (Rule::GreaterThan(i, n, to), Rule::GreaterThan(i2, n2, to2)) => i == i2 && n == n2
                && to@ == to2@,
            (Rule::Goto(to), Rule::Goto(to2)) => to@ == to2@,
            _ => false,
        }
    }

    /// Reading a text twice gives the same rule.
    pub proof fn lemma_parse_is_unique(a: Rule, b: Rule, s: Seq<u8>)
        requires
            a.is_parse_of(s),
            b.is_parse_of(s),
        ensures
            a.same_as(b),
    {
    }
}

impl RuleSet {
    /// The two workflows have the same name and the same rules.
    pub open spec fn same_as(&self, other: RuleSet) -> bool {
        &&& self.name@ == other.name@
        &&& self.rules@.len() == other.rules@.len()
        &&& forall|i: int|
            0 <= i < self.rules@.len() ==> (#[trigger] self.rules@[i]).same_as(other.rules@[i])
    }

    /// Reading a line twice gives the same workflow.
    pub proof fn lemma_parse_is_unique(a: RuleSet, b: RuleSet, s: Seq<u8>)
        requires
            a.is_parse_of(s),
            b.is_parse_of(s),
        ensures
            a.same_as(b),
    {
        let cut = split_once(s, seq![123u8])->0;
        let p = split(drop_end(cut.1, false), seq![44u8]);
        assert forall|i: int| 0 <= i < a.rules@.len() implies (#[trigger] a.rules@[i]).same_as(
            b.rules@[i],
        ) by {
            Rule::lemma_parse_is_unique(a.rules@[i], b.rules@[i], p[i]);
        }
    }
}

/// Reading a text twice gives the same value: two inputs that one text
/// says have the same workflows and parts with the same ratings.
pub proof fn lemma_parse_is_unique(a: Input, b: Input, text: Seq<u8>)
    requires
        a.is_parse_of(text),
        b.is_parse_of(text),
    ensures
        a.rulesets@.len() == b.rulesets@.len(),
        forall|i: int|
            0 <= i < a.rulesets@.len() ==> (#[trigger] a.rulesets@[i]).same_as(b.rulesets@[i]),
        a.parts@.len() == b.parts@.len(),
        forall|i: int|
            0 <= i < a.parts@.len() ==> (#[trigger] a.parts@[i]).ratings@ == b.parts@[i].ratings@,
{
    let head = (split_once(text, gap())->0).0;
    let rest = (split_once(text, gap())->0).1;
    assert forall|i: int| 0 <= i < a.rulesets@.len() implies (#[trigger] a.rulesets@[i]).same_as(
        b.rulesets@[i],
    ) by {
        RuleSet::lemma_parse_is_unique(a.rulesets@[i], b.rulesets@[i], lines(head)[i]);
    }
    assert forall|i: int| 0 <= i < a.parts@.len() implies (#[trigger] a.parts@[i]).ratings@
        == b.parts@[i].ratings@ by {
        let x = a.parts@[i];
        let y = b.parts@[i];
        assert(x.is_parse_of(lines(rest)[i]));
        assert(y.is_parse_of(lines(rest)[i]));
        let p = split(unbraced(lines(rest)[i]), seq![44u8]);
        assert forall|k: int| 0 <= k < 4 implies x.ratings@[k] == y.ratings@[k] by {
            assert(Some(x.ratings@[k]) == rating_of(p[k]));
            assert(Some(y.ratings@[k]) == rating_of(p[k]));
        }
        assert(x.ratings@ =~= y.ratings@);
    }
}

} // verus!
