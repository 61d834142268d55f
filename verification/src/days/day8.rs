//! A network of nodes, each with a left and a right neighbour, and a list
//! of turns that is followed over and over. The first part counts the steps
//! from `AAA` to `ZZZ`. The second part starts at every node that ends in
//! `A`, counts the steps of each to a node that ends in `Z`, and asks when
//! all are at such a node together: the least common multiple of the
//! counts.

use crate::math::{all_nonnegative, lcm_fold, lcm_fold_fits, lcm_vec};
use crate::text::{ascii_bytes, chars_of, lines, rows_of, split_lines, string_of, to_ascii, ParseError};
use vstd::prelude::*;
use vstd::string::*;

verus! {

/// The turns, and the nodes of the network as name, left neighbour and
/// right neighbour. No two entries have one name.
#[derive(Debug, PartialEq, Eq)]
pub struct Input {
    pub directions: String,
    pub network: Vec<(String, (String, String))>,
}

/// The error of the `regex` crate for a pattern that it cannot compile.
#[verifier::external_type_specification]
#[verifier::external_body]
pub struct ExRegexError(regex::Error);

/// The pattern of a line that describes a node: three capital letters, and
/// in brackets the three capital letters of each neighbour.
pub const PATTERN: &'static str = "([A-Z]{3}) = \\(([A-Z]{3}), ([A-Z]{3})\\)";

/// What the `regex` crate finds when it searches a text for a pattern:
/// nothing at all if it cannot compile the pattern, otherwise nothing if
/// the pattern does not occur, otherwise for each group of the first
/// occurrence the text that it matched, if it took part. The whole
/// occurrence is the group 0.
pub uninterp spec fn regex_captures(pattern: Seq<char>, text: Seq<char>) -> Option<
    Option<Seq<Option<Seq<char>>>>,
>;

/// What a list of groups holds.
pub open spec fn groups_view(g: Seq<Option<String>>) -> Seq<Option<Seq<char>>> {
    Seq::new(
        g.len(),
        |i: int|
            match g[i] {
                Some(s) => Some(s@),
                None => None,
            },
    )
}

/// Searches `text` for `pattern`: compiles the pattern with `Regex::new`
/// and takes the groups of its first occurrence from `Regex::captures`.
/// The result is what `regex_captures` names for the two texts; nothing
/// else is claimed of it.
#[verifier::external_body]
fn capture_groups(pattern: &str, text: &str) -> (r: Result<
    Option<Vec<Option<String>>>,
    regex::Error,
>)
    ensures
        regex_captures(pattern@, text@) == match r {
            Ok(Some(g)) => Some(Some(groups_view(g@))),
            Ok(None) => Some(None),
            Err(_) => None,
        },
{
    match regex::Regex::new(pattern) {
        Ok(re) => Ok(
            re.captures(text).map(
                |c| c.iter().map(|m| m.map(|m| m.as_str().to_owned())).collect(),
            ),
        ),
        Err(e) => Err(e),
    }
}

/// The node that the groups of an occurrence describe: the groups 1 to 3
/// are its name and its neighbours. There is none if one of them is
/// missing.
pub open spec fn node_of_groups(g: Seq<Option<Seq<char>>>) -> Option<
    (Seq<char>, Seq<char>, Seq<char>),
> {
    if g.len() >= 4 && g[1] is Some && g[2] is Some && g[3] is Some {
        Some((g[1]->0, g[2]->0, g[3]->0))
    } else {
        None
    }
}

/// The node that a line describes, if the pattern occurs in it.
pub open spec fn node_of(line: Seq<char>) -> Option<(Seq<char>, Seq<char>, Seq<char>)> {
    match regex_captures(PATTERN@, line) {
        Some(Some(g)) => node_of_groups(g),
        _ => None,
    }
}

/// The pattern can be searched for in the line.
pub open spec fn searchable(line: Seq<char>) -> bool {
    regex_captures(PATTERN@, line) is Some
}

/// What a network holds.
pub open spec fn network_view(v: Seq<(String, (String, String))>) -> Seq<
    (Seq<char>, Seq<char>, Seq<char>),
> {
    Seq::new(v.len(), |i: int| (v[i].0@, v[i].1.0@, v[i].1.1@))
}

/// The index of the first node with the name, from `k` on, or the number
/// of nodes.
pub open spec fn index_of(net: Seq<(Seq<char>, Seq<char>, Seq<char>)>, name: Seq<char>, k: int)
    -> int
    decreases net.len() - k,
{
    if k < 0 || k >= net.len() {
        net.len() as int
    } else if net[k].0 == name {
        k
    } else {
        index_of(net, name, k + 1)
    }
}

/// The network with a node put in: in place of the node of that name, or
/// behind all others.
pub open spec fn with_node(
    net: Seq<(Seq<char>, Seq<char>, Seq<char>)>,
    node: (Seq<char>, Seq<char>, Seq<char>),
) -> Seq<(Seq<char>, Seq<char>, Seq<char>)> {
    let i = index_of(net, node.0, 0);
    if 0 <= i < net.len() {
        net.update(i, node)
    } else {
        net.push(node)
    }
}

/// The network that the lines from the third on describe, after the first
/// `k` lines.
pub open spec fn network_of(ls: Seq<Seq<u8>>, k: int) -> Seq<(Seq<char>, Seq<char>, Seq<char>)>
    decreases k,
{
    if k <= 2 {
        Seq::empty()
    } else {
        match node_of(chars_of(ls[k - 1])) {
            Some(node) => with_node(network_of(ls, k - 1), node),
            None => network_of(ls, k - 1),
        }
    }
}

/// The node that the groups of an occurrence describe.
pub fn node_from_groups(groups: Vec<Option<String>>) -> (r: Option<(String, (String, String))>)
    ensures
        match r {
            Some(n) => node_of_groups(groups_view(groups@)) == Some((n.0@, n.1.0@, n.1.1@)),
            None => node_of_groups(groups_view(groups@)) is None,
        },
{
    let mut groups = groups;
    let ghost g = groups_view(groups@);
    if groups.len() < 4 {
        return None;
    }
    assert(g[1] == match groups@[1] { Some(s) => Some(s@), None => None });
    assert(g[2] == match groups@[2] { Some(s) => Some(s@), None => None });
    assert(g[3] == match groups@[3] { Some(s) => Some(s@), None => None });
    let right = groups.remove(3);
    let left = groups.remove(2);
    let name = groups.remove(1);
    match (name, left, right) {
        (Some(name), Some(left), Some(right)) => Some((name, (left, right))),
        _ => None,
    }
}

/// The index of the node with the name, or the number of nodes.
pub fn find_node(network: &Vec<(String, (String, String))>, name: &String) -> (r: usize)
    ensures
        r == index_of(network_view(network@), name@, 0),
        r <= network@.len(),
        r < network@.len() ==> network@[r as int].0@ == name@,
{
    let ghost net = network_view(network@);
    let mut k: usize = 0;
    while k < network.len()
        invariant
            k <= network@.len(),
            net == network_view(network@),
            index_of(net, name@, 0) == index_of(net, name@, k as int),
        decreases network@.len() - k,
    {
        assert(net[k as int].0 == network@[k as int].0@);
        if network[k].0 == *name {
            return k;
        }
        k += 1;
    }
    k
}

impl Input {
    /// The text has a first line, and the pattern can be searched for in
    /// every line from the third on.
    pub open spec fn accepts(text: Seq<u8>) -> bool {
        &&& lines(text).len() >= 1
        &&& forall|i: int|
            2 <= i < lines(text).len() ==> searchable(chars_of(#[trigger] lines(text)[i]))
    }

    /// This value is what the text says: the turns are the first line, the
    /// second line is passed over, and every line after it in which the
    /// pattern occurs is a node.
    pub open spec fn is_parse_of(&self, text: Seq<u8>) -> bool {
        &&& self.directions@ == chars_of(lines(text)[0])
        &&& network_view(self.network@) == network_of(lines(text), lines(text).len() as int)
    }

    /// Reads the turns and the network. A text is accepted if it is ASCII,
    /// has a first line, and can be searched.
    pub fn from_str(s: &str) -> (r: Result<Input, ParseError>)
        ensures
            match r {
                Ok(v) => ascii_bytes(s@) is Some && Input::accepts(ascii_bytes(s@)->0)
                    && v.is_parse_of(ascii_bytes(s@)->0),
                Err(_) => ascii_bytes(s@) is None || !Input::accepts(ascii_bytes(s@)->0),
            },
    {
        let bytes = match to_ascii(s) {
            Some(b) => b,
            None => { return Err(ParseError {  }); },
        };
        let ghost text = bytes@;
        let ls = split_lines(bytes.as_slice());
        let ghost rows = lines(text);
        assert(rows.len() == ls@.len());
        if ls.len() == 0 {
            return Err(ParseError {  });
        }
        assert(ls@[0]@ == rows[0]);
        let directions = string_of(ls[0].as_slice());
        let mut network: Vec<(String, (String, String))> = Vec::new();
        let mut i: usize = 2;
        assert(network_view(network@) =~= network_of(rows, 2));
        while i < ls.len()
            invariant
                2 <= i,
                i <= ls@.len() || ls@.len() < 2,
                ls@.len() < 2 ==> i == 2,
                rows_of(ls@) == rows,
                rows == lines(text),
                ascii_bytes(s@) == Some(text),
                forall|k: int| 2 <= k < i ==> searchable(chars_of(#[trigger] rows[k])),
                network_view(network@) == network_of(rows, i as int),
            decreases ls@.len() - i,
        {
            assert(ls@[i as int]@ == rows[i as int]);
            let line = string_of(ls[i].as_slice());
            let ghost before = network_view(network@);
            match capture_groups(PATTERN, line.as_str()) {
                Ok(Some(groups)) => {
                    match node_from_groups(groups) {
                        Some(node) => {
                            let ghost n = (node.0@, node.1.0@, node.1.1@);
                            let at = find_node(&network, &node.0);
                            if at < network.len() {
                                network[at] = node;
                                assert(network_view(network@) =~= before.update(at as int, n));
                            } else {
                                network.push(node);
                                assert(network_view(network@) =~= before.push(n));
                            }
                        },
                        None => {},
                    }
                },
                Ok(None) => {},
                Err(_) => {
                    assert(!searchable(chars_of(rows[i as int])));
                    return Err(ParseError {  });
                },
            }
            i += 1;
        }
        proof {
            if ls@.len() < 2 {
                assert(network_of(rows, rows.len() as int) =~= network_of(rows, 2));
            }
        }
        Ok(Input { directions, network })
    }

    /// The bytes of the turns.
    pub open spec fn turns(&self) -> Seq<u8> {
        vstd::utf8::encode_utf8(self.directions@)
    }

    /// The network as names.
    pub open spec fn net(&self) -> Seq<(Seq<char>, Seq<char>, Seq<char>)> {
        network_view(self.network@)
    }
}

/// The node that follows the node `name` at step `k`: its left neighbour
/// if turn `k`, counted round and round, is `L`, its right neighbour if the
/// turn is `R`. There is none where the node is not in the network, where
/// there are no turns, or where the turn is another byte.
pub open spec fn next_node(
    net: Seq<(Seq<char>, Seq<char>, Seq<char>)>,
    turns: Seq<u8>,
    name: Seq<char>,
    k: nat,
) -> Option<Seq<char>> {
    let i = index_of(net, name, 0);
    if turns.len() == 0 || !(0 <= i < net.len()) {
        None
    } else if turns[k as int % turns.len() as int] == 76 {
        Some(net[i].1)
    } else if turns[k as int % turns.len() as int] == 82 {
        Some(net[i].2)
    } else {
        None
    }
}

/// The node reached from `start` after `k` steps.
pub open spec fn walk(
    net: Seq<(Seq<char>, Seq<char>, Seq<char>)>,
    turns: Seq<u8>,
    start: Seq<char>,
    k: nat,
) -> Option<Seq<char>>
    decreases k,
{
    if k == 0 {
        Some(start)
    } else {
        match walk(net, turns, start, (k - 1) as nat) {
            Some(name) => next_node(net, turns, name, (k - 1) as nat),
            None => None,
        }
    }
}

/// The name ends in the byte.
pub open spec fn ends_in(name: Seq<char>, b: u8) -> bool {
    vstd::utf8::encode_utf8(name).len() > 0 && vstd::utf8::encode_utf8(name).last() == b
}

/// The walk from `start` comes to `goal` after `n` steps and not before.
pub open spec fn arrives(
    net: Seq<(Seq<char>, Seq<char>, Seq<char>)>,
    turns: Seq<u8>,
    start: Seq<char>,
    goal: Seq<char>,
    n: nat,
) -> bool {
    &&& walk(net, turns, start, n) == Some(goal)
    &&& forall|k: nat| k < n ==> #[trigger] walk(net, turns, start, k) != Some(goal)
}

/// The walk from `start` comes to a node that ends in `Z` after `n` steps
/// and not before.
pub open spec fn arrives_at_z(
    net: Seq<(Seq<char>, Seq<char>, Seq<char>)>,
    turns: Seq<u8>,
    start: Seq<char>,
    n: nat,
) -> bool {
    &&& walk(net, turns, start, n) is Some
    &&& ends_in(walk(net, turns, start, n)->0, 90)
    &&& forall|k: nat|
        k < n ==> !ends_in((#[trigger] walk(net, turns, start, k))->0, 90)
}

/// The number of steps from `start` to the first node that ends in `Z`.
pub open spec fn steps_to_z(
    net: Seq<(Seq<char>, Seq<char>, Seq<char>)>,
    turns: Seq<u8>,
    start: Seq<char>,
) -> nat {
    choose|n: nat| arrives_at_z(net, turns, start, n)
}

/// The nodes among the first `k` whose names end in `A`, in their order.
pub open spec fn starts_of(net: Seq<(Seq<char>, Seq<char>, Seq<char>)>, k: int) -> Seq<Seq<char>>
    decreases k,
{
    if k <= 0 {
        Seq::empty()
    } else if ends_in(net[k - 1].0, 65) {
        starts_of(net, k - 1).push(net[k - 1].0)
    } else {
        starts_of(net, k - 1)
    }
}

/// The numbers of steps from each start to its first node that ends in
/// `Z`.
pub open spec fn all_steps(
    net: Seq<(Seq<char>, Seq<char>, Seq<char>)>,
    turns: Seq<u8>,
    starts: Seq<Seq<char>>,
) -> Seq<i64> {
    Seq::new(starts.len(), |i: int| steps_to_z(net, turns, starts[i]) as i64)
}

/// Follows one turn from a node.
pub fn follow(input: &Input, name: &String, step: usize) -> (r: Option<String>)
    ensures
        match r {
            Some(n) => next_node(input.net(), input.turns(), name@, step as nat) == Some(n@),
            None => next_node(input.net(), input.turns(), name@, step as nat) is None,
        },
{
    let turns = input.directions.as_str().as_bytes();
    if turns.len() == 0 {
        return None;
    }
    let i = find_node(&input.network, name);
    if i >= input.network.len() {
        return None;
    }
    let ghost net = input.net();
    assert(net[i as int] == (
        input.network@[i as int].0@,
        input.network@[i as int].1.0@,
        input.network@[i as int].1.1@,
    ));
    let t = turns[step % turns.len()];
    if t == 76 {
        Some(input.network[i].1.0.clone())
    } else if t == 82 {
        Some(input.network[i].1.1.clone())
    } else {
        None
    }
}

/// Whether the name ends in the byte.
pub fn ends_with(name: &String, b: u8) -> (r: bool)
    ensures
        r == ends_in(name@, b),
{
    let bytes = name.as_str().as_bytes();
    bytes.len() > 0 && bytes[bytes.len() - 1] == b
}

/// The number of steps from `AAA` to `ZZZ`.
pub fn part1(input: Input) -> (r: i64)
    requires
        exists|n: nat| arrives(input.net(), input.turns(), "AAA"@, "ZZZ"@, n) && n <= i64::MAX && n <= usize::MAX,
    ensures
        forall|n: nat| arrives(input.net(), input.turns(), "AAA"@, "ZZZ"@, n) ==> r == n,
{
    let ghost net = input.net();
    let ghost turns = input.turns();
    let ghost stop = choose|n: nat| arrives(net, turns, "AAA"@, "ZZZ"@, n) && n <= i64::MAX && n <= usize::MAX;
    let goal = "ZZZ".to_owned();
    let mut current = "AAA".to_owned();
    let mut step: usize = 0;
    while current != goal
        invariant
            net == input.net(),
            turns == input.turns(),
            arrives(net, turns, "AAA"@, "ZZZ"@, stop),
            stop <= i64::MAX,
            stop <= usize::MAX,
            goal@ == "ZZZ"@,
            step <= stop,
            walk(net, turns, "AAA"@, step as nat) == Some(current@),
        decreases stop - step,
    {
        proof {
            if step == stop {
                assert(false);
            }
            assert(walk(net, turns, "AAA"@, (step + 1) as nat) is Some) by {
                if walk(net, turns, "AAA"@, (step + 1) as nat) is None {
                    lemma_walk_over(net, turns, "AAA"@, (step + 1) as nat, stop);
                }
            }
        }
        match follow(&input, &current, step) {
            Some(n) => {
                current = n;
            },
            None => {},
        }
        step += 1;
    }
    proof {
        assert forall|n: nat| arrives(net, turns, "AAA"@, "ZZZ"@, n) implies step == n by {
            if n < step {
                assert(walk(net, turns, "AAA"@, n) != Some("ZZZ"@));
            } else if step < n {
                assert(walk(net, turns, "AAA"@, step as nat) != Some("ZZZ"@));
            }
        }
    }
    step as i64
}

/// Once a walk has lost its way it does not find it again.
pub proof fn lemma_walk_over(
    net: Seq<(Seq<char>, Seq<char>, Seq<char>)>,
    turns: Seq<u8>,
    start: Seq<char>,
    a: nat,
    b: nat,
)
    requires
        walk(net, turns, start, a) is None,
        a <= b,
    ensures
        walk(net, turns, start, b) is None,
    decreases b,
{
    if a < b {
        lemma_walk_over(net, turns, start, a, (b - 1) as nat);
    }
}

/// The number of steps from a start to its first node that ends in `Z`.
pub fn count_steps(input: &Input, start: &String) -> (r: usize)
    requires
        exists|n: nat| arrives_at_z(input.net(), input.turns(), start@, n) && n <= i64::MAX && n <= usize::MAX,
    ensures
        r == steps_to_z(input.net(), input.turns(), start@),
        r <= i64::MAX,
{
    let ghost net = input.net();
    let ghost turns = input.turns();
    let ghost stop = choose|n: nat| arrives_at_z(net, turns, start@, n) && n <= i64::MAX && n <= usize::MAX;
    let mut current = start.clone();
    let mut step: usize = 0;
    while !ends_with(&current, 90)
        invariant
            net == input.net(),
            turns == input.turns(),
            arrives_at_z(net, turns, start@, stop),
            stop <= i64::MAX,
            stop <= usize::MAX,
            step <= stop,
            walk(net, turns, start@, step as nat) == Some(current@),
        decreases stop - step,
    {
        proof {
            if step == stop {
                assert(false);
            }
            assert(walk(net, turns, start@, (step + 1) as nat) is Some) by {
                if walk(net, turns, start@, (step + 1) as nat) is None {
                    lemma_walk_over(net, turns, start@, (step + 1) as nat, stop);
                }
            }
        }
        match follow(input, &current, step) {
            Some(n) => {
                current = n;
            },
            None => {},
        }
        step += 1;
    }
    proof {
        let n = steps_to_z(net, turns, start@);
        assert(arrives_at_z(net, turns, start@, step as nat)) by {
            assert forall|k: nat| k < step implies !ends_in(
                (#[trigger] walk(net, turns, start@, k))->0,
                90,
            ) by {
                assert(k < stop);
            }
        }
        assert(arrives_at_z(net, turns, start@, n));
        if n < step {
            assert(!ends_in(walk(net, turns, start@, n)->0, 90));
        } else if step < n {
            assert(!ends_in(walk(net, turns, start@, step as nat)->0, 90));
        }
    }
    step
}

/// Every start comes to a node that ends in `Z`, and the least common
/// multiple of the numbers of steps can be computed in 64 bits.
pub open spec fn ghosts_arrive(input: Input) -> bool {
    let net = input.net();
    let starts = starts_of(net, net.len() as int);
    &&& starts.len() >= 1
    &&& forall|i: int|
        0 <= i < starts.len() ==> exists|n: nat|
            arrives_at_z(net, input.turns(), #[trigger] starts[i], n) && n <= i64::MAX && n <= usize::MAX
    &&& lcm_fold_fits(all_steps(net, input.turns(), starts))
}

/// The least common multiple of the numbers of steps from each node that
/// ends in `A` to its first node that ends in `Z`.
pub fn part2(input: Input) -> (r: i64)
    requires
        ghosts_arrive(input),
    ensures
        r == lcm_fold(
            all_steps(
                input.net(),
                input.turns(),
                starts_of(input.net(), input.net().len() as int),
            ),
        ),
{
    let ghost net = input.net();
    let ghost turns = input.turns();
    let ghost starts = starts_of(net, net.len() as int);
    let mut steps: Vec<i64> = Vec::new();
    let mut k: usize = 0;
    assert(net.len() == input.network@.len());
    while k < input.network.len()
        invariant
            k <= input.network@.len(),
            net == input.net(),
            net.len() == input.network@.len(),
            turns == input.turns(),
            starts == starts_of(net, net.len() as int),
            ghosts_arrive(input),
            steps@.len() == starts_of(net, k as int).len(),
            starts_of(net, k as int).len() <= starts.len(),
            starts_of(net, k as int) == starts.subrange(0, starts_of(net, k as int).len() as int),
            forall|i: int|
                0 <= i < steps@.len() ==> #[trigger] steps@[i] == steps_to_z(
                    net,
                    turns,
                    starts[i],
                ) as i64 && steps@[i] >= 0,
        decreases input.network@.len() - k,
    {
        let name = &input.network[k].0;
        assert(net[k as int].0 == name@);
        proof {
            lemma_starts_prefix(net, k + 1, net.len() as int);
        }
        if ends_with(name, 65) {
            let ghost i = steps@.len() as int;
            proof {
                assert(starts_of(net, k + 1) == starts_of(net, k as int).push(name@));
                assert(starts_of(net, k + 1)[i] == name@);
                assert(starts[i] == name@);
            }
            let n = count_steps(&input, name);
            steps.push(n as i64);
        }
        k += 1;
    }
    proof {
        assert(starts_of(net, k as int) == starts);
        assert(steps@ =~= all_steps(net, turns, starts));
        assert(all_nonnegative(steps@));
    }
    lcm_vec(steps)
}

/// The starts among the first nodes are the first of all starts.
pub proof fn lemma_starts_prefix(net: Seq<(Seq<char>, Seq<char>, Seq<char>)>, k: int, n: int)
    requires
        0 <= k <= n,
    ensures
        starts_of(net, k).len() <= starts_of(net, n).len(),
        starts_of(net, k) == starts_of(net, n).subrange(0, starts_of(net, k).len() as int),
    decreases n,
{
    if k < n {
        lemma_starts_prefix(net, k, n - 1);
        let a = starts_of(net, k);
        let b = starts_of(net, n - 1);
        let c = starts_of(net, n);
        assert(a =~= c.subrange(0, a.len() as int)) by {
            assert(a == b.subrange(0, a.len() as int));
        }
    } else {
        assert(starts_of(net, k) =~= starts_of(net, n).subrange(0, starts_of(net, k).len() as int));
    }
}

// ----------------------------------------------------------------------
// Reading twice
// ----------------------------------------------------------------------


/// Reading a text twice gives the same value: two networks that one text
/// says have the same turns and the same nodes.
pub proof fn lemma_parse_is_unique(a: Input, b: Input, text: Seq<u8>)
    requires
        a.is_parse_of(text),
        b.is_parse_of(text),
    ensures
        a.directions@ == b.directions@,
        network_view(a.network@) == network_view(b.network@),
{
}

/// A walk arrives once: the number of steps after which it comes to its
/// goal, and not before, is one number.
pub proof fn lemma_arrives_once(
    net: Seq<(Seq<char>, Seq<char>, Seq<char>)>,
    turns: Seq<u8>,
    start: Seq<char>,
    goal: Seq<char>,
    n: nat,
    m: nat,
)
    requires
        arrives(net, turns, start, goal, n),
        arrives(net, turns, start, goal, m),
    ensures
        n == m,
{
    if n < m {
        assert(walk(net, turns, start, n) != Some(goal));
    } else if m < n {
        assert(walk(net, turns, start, m) != Some(goal));
    }
}

} // verus!
